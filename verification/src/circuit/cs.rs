//! A minimal R1CS constraint-system builder that finalizes into a foldable CCS
//! structure.
//!
//! Variables index a witness vector (`z[0] = 1` is the constant "one" wire).
//! Constraints are rank-1: `<a, z> <b, z> = <c, z>`, with `a, b, c` linear
//! combinations. The builder records the constraints and keeps the live witness, so
//! `is_satisfied` is an in-memory satisfaction check. `finalize` emits the CCS
//! encoding `(M_1 = I, M_2 = A, M_3 = B, M_4 = C)`, `f = X_2 X_3 - X_4`, padded to a
//! square `m x m` with `m` a multiple of the ring degree.

use core::ops::Neg;
use vstd::prelude::*;

use crate::fp::{
    dot, fadd, fmod, fmul, fneg, fp_seq, fsub, lemma_fmod_add, lemma_fmod_mul, lemma_fmod_multiple, lemma_fmod_neg,
    lemma_fmod_sub, lemma_fp_lt_q, lemma_fmod_small, Fp,
};
use crate::Q;
use crate::types::{identity_matrix, is_identity, mat_seq, matvec_spec, CcsStructure, SparsePoly};

verus! {

broadcast use {lemma_fp_lt_q, lemma_fmod_small};

/// A linear combination as `(variable, coefficient residue)` pairs.
pub type LcView = Seq<(usize, nat)>;

/// `sum coeff_i z[var_i]` in `F`.
pub open spec fn lc_value(lc: LcView, w: Seq<nat>) -> nat
    decreases lc.len(),
{
    if lc.len() == 0 {
        0
    } else {
        fadd(lc_value(lc.drop_last(), w), fmul(lc.last().1, w[lc.last().0 as int]))
    }
}

/// Every variable of the combination is below `n`.
pub open spec fn lc_valid(lc: LcView, n: nat) -> bool {
    forall|i: int| 0 <= i < lc.len() ==> (#[trigger] lc[i]).0 < n
}

/// The combination with every coefficient negated.
pub open spec fn lc_neg(lc: LcView) -> LcView {
    lc.map_values(|p: (usize, nat)| (p.0, fneg(p.1)))
}

/// The combination with every coefficient multiplied by `s`.
pub open spec fn lc_scale(lc: LcView, s: nat) -> LcView {
    lc.map_values(|p: (usize, nat)| (p.0, fmul(p.1, s)))
}

/// Concatenating combinations adds their values.
pub proof fn lemma_lc_value_append(a: LcView, b: LcView, w: Seq<nat>)
    ensures
        lc_value(a + b, w) == fadd(lc_value(a, w), lc_value(b, w)),
    decreases b.len(),
{
    if b.len() == 0 {
        assert(a + b =~= a);
        assert(lc_value(a, w) < crate::Q) by {
            lemma_lc_value_lt(a, w);
        }
    } else {
        assert((a + b).drop_last() =~= a + b.drop_last());
        lemma_lc_value_append(a, b.drop_last(), w);
        let x = lc_value(a, w) as int;
        let y = lc_value(b.drop_last(), w) as int;
        let t = fmul(b.last().1, w[b.last().0 as int]) as int;
        lemma_fmod_add(x + y, t);
        lemma_fmod_add(x, y + t);
        lemma_fmod_add(y, t);
        assert(fmod(fmod(x + y) as int + t) == fmod(x + y + t));
        assert(fmod(x + fmod(y + t)) == fmod(x + (y + t)));
    }
}

/// Values are residues.
pub proof fn lemma_lc_value_lt(a: LcView, w: Seq<nat>)
    ensures
        lc_value(a, w) < crate::Q,
    decreases a.len(),
{
}

/// Negating every coefficient negates the value.
pub proof fn lemma_lc_value_neg(a: LcView, w: Seq<nat>)
    ensures
        lc_value(lc_neg(a), w) == fneg(lc_value(a, w)),
    decreases a.len(),
{
    if a.len() == 0 {
    } else {
        assert(lc_neg(a).drop_last() =~= lc_neg(a.drop_last()));
        lemma_lc_value_neg(a.drop_last(), w);
        let v = lc_value(a.drop_last(), w) as int;
        let c = a.last().1 as int;
        let x = w[a.last().0 as int] as int;
        // fneg(v) + fneg(c) * x == -(v + c * x)  (mod q)
        lemma_fmod_neg(c);
        lemma_fmod_mul(-c, x);
        lemma_fmod_mul(fmod(-c) as int, x);
        lemma_fmod_mul(c, x);
        lemma_fmod_neg(v);
        lemma_fmod_add(-v, -(c * x));
        lemma_fmod_add(fmod(-v) as int, fmod(-c * x) as int);
        lemma_fmod_add(v, c * x);
        lemma_fmod_neg(v + c * x);
        lemma_fmod_neg(fmod(c * x) as int);
        assert(-c * x == -(c * x)) by (nonlinear_arith);
        lemma_fmod_add(v, fmod(c * x) as int);
        lemma_fmod_neg(v + fmod(c * x));
        lemma_fmod_sub(-v, fmod(c * x) as int);
        lemma_fmod_sub(-v, c * x);
    }
}

/// Scaling every coefficient scales the value.
pub proof fn lemma_lc_value_scale(a: LcView, s: nat, w: Seq<nat>)
    ensures
        lc_value(lc_scale(a, s), w) == fmul(lc_value(a, w), s),
    decreases a.len(),
{
    if a.len() == 0 {
        assert(lc_scale(a, s).len() == 0);
        assert(fmul(0, s) == 0);
    } else {
        assert(lc_scale(a, s).drop_last() =~= lc_scale(a.drop_last(), s));
        lemma_lc_value_scale(a.drop_last(), s, w);
        let v = lc_value(a.drop_last(), w) as int;
        let c = a.last().1 as int;
        let x = w[a.last().0 as int] as int;
        let si = s as int;
        let aa = v * si;
        let bb = c * si * x;
        lemma_fmod_mul(c * si, x);
        lemma_fmod_add(aa, bb);
        lemma_fmod_add(v, c * x);
        lemma_fmod_mul(v + c * x, si);
        assert((v + c * x) * si == aa + bb) by (nonlinear_arith)
            requires
                aa == v * si,
                bb == c * si * x,
        ;
        let sa = lc_scale(a, s);
        assert(sa.last() == (a.last().0, fmul(a.last().1, s)));
        assert(lc_value(sa, w) == fadd(lc_value(sa.drop_last(), w), fmul(fmul(a.last().1, s), w[a.last().0 as int])));
        assert(lc_value(sa.drop_last(), w) == fmod(aa));
        assert(fmul(fmul(a.last().1, s), w[a.last().0 as int]) == fmod(bb));
        assert(lc_value(sa, w) == fmod(aa + bb));
        assert(lc_value(a, w) == fadd(v as nat, fmul(c as nat, x as nat)));
        assert(fmul(lc_value(a, w), s) == fmod(aa + bb));
    }
}

/// A single term's value.
pub proof fn lemma_lc_value_single(v: usize, c: nat, w: Seq<nat>)
    requires
        c < crate::Q,
        (v as int) < w.len(),
        w[v as int] < crate::Q,
    ensures
        lc_value(seq![(v, c)], w) == fmul(c, w[v as int]),
{
    let l = seq![(v, c)];
    assert(l.drop_last() =~= Seq::<(usize, nat)>::empty());
    assert(lc_value(l.drop_last(), w) == 0);
    assert(fadd(0, fmul(c, w[v as int])) == fmul(c, w[v as int]));
}

/// A witness-vector index.
#[derive(Clone, Copy, Debug, PartialEq, Eq, Structural)]
pub struct Var(pub usize);

/// A linear combination `sum coeff_i z[var_i]` over the witness.
#[derive(Clone, Debug, PartialEq, Eq)]
pub struct Lc(pub Vec<(usize, Fp)>);

impl View for Lc {
    type V = LcView;

    open spec fn view(&self) -> LcView {
        self.0@.map_values(|p: (usize, Fp)| (p.0, p.1@))
    }
}

impl Lc {
    /// The zero combination.
    pub fn zero() -> (r: Lc)
        ensures
            r@ == Seq::<(usize, nat)>::empty(),
    {
        let r = Lc(Vec::new());
        assert(r@ =~= Seq::<(usize, nat)>::empty());
        r
    }

    /// A single variable with coefficient one.
    pub fn from_var(v: Var) -> (r: Lc)
        ensures
            r@ == seq![(v.0, 1nat)],
    {
        let mut t: Vec<(usize, Fp)> = Vec::new();
        t.push((v.0, Fp::one()));
        let r = Lc(t);
        assert(r@ =~= seq![(v.0, 1nat)]);
        r
    }

    /// `self + other`: the concatenation of the terms.
    pub fn add(&self, other: &Lc) -> (r: Lc)
        ensures
            r@ == self@ + other@,
    {
        let mut out = vstd::slice::slice_to_vec(self.0.as_slice());
        let mut i: usize = 0;
        while i < other.0.len()
            invariant
                i <= other.0@.len(),
                out@.len() == self.0@.len() + i,
                forall|j: int| 0 <= j < self.0@.len() ==> #[trigger] out@[j] == self.0@[j],
                forall|k: int| self.0@.len() <= k < self.0@.len() + i ==> #[trigger] out@[k] == other.0@[k - self.0@.len()],
            decreases other.0@.len() - i,
        {
            out.push(other.0[i]);
            i = i + 1;
        }
        let r = Lc(out);
        assert(r@ =~= self@ + other@);
        r
    }

    /// `self - other`: the terms of `self`, then those of `other` negated.
    pub fn sub(&self, other: &Lc) -> (r: Lc)
        ensures
            r@ == self@ + lc_neg(other@),
    {
        let mut out = vstd::slice::slice_to_vec(self.0.as_slice());
        let mut i: usize = 0;
        while i < other.0.len()
            invariant
                i <= other.0@.len(),
                out@.len() == self.0@.len() + i,
                forall|j: int| 0 <= j < self.0@.len() ==> #[trigger] out@[j] == self.0@[j],
                forall|k: int|
                    self.0@.len() <= k < self.0@.len() + i ==> (#[trigger] out@[k]).0 == other.0@[k - self.0@.len()].0
                        && out@[k].1@ == fneg(other.0@[k - self.0@.len()].1@),
            decreases other.0@.len() - i,
        {
            let (v, c) = other.0[i];
            out.push((v, c.neg()));
            i = i + 1;
        }
        let r = Lc(out);
        assert(r@ =~= self@ + lc_neg(other@));
        r
    }

    /// `s * self`.
    pub fn scale(&self, s: Fp) -> (r: Lc)
        ensures
            r@ == lc_scale(self@, s@),
    {
        let mut out: Vec<(usize, Fp)> = Vec::new();
        let mut i: usize = 0;
        while i < self.0.len()
            invariant
                i <= self.0@.len(),
                out@.len() == i,
                forall|j: int| 0 <= j < i ==> (#[trigger] out@[j]).0 == self.0@[j].0 && out@[j].1@ == fmul(self.0@[j].1@, s@),
            decreases self.0@.len() - i,
        {
            let (v, c) = self.0[i];
            out.push((v, c * s));
            i = i + 1;
        }
        let r = Lc(out);
        assert(r@ =~= lc_scale(self@, s@));
        r
    }
}

/// The abstract constraint system: witness residues and the `a`, `b`, `c` rows.
pub type CsView = (Seq<nat>, Seq<LcView>, Seq<LcView>, Seq<LcView>);

/// The views of a list of combinations.
pub open spec fn lcs_view(v: Seq<Lc>) -> Seq<LcView> {
    v.map_values(|l: Lc| l@)
}

/// Well formed: `z[0] = 1`, as many `a`, `b`, `c` rows, and every variable allocated.
pub open spec fn cs_wf(v: CsView) -> bool {
    &&& v.0.len() >= 1
    &&& v.0[0] == 1
    &&& v.1.len() == v.2.len()
    &&& v.1.len() == v.3.len()
    &&& forall|i: int|
        0 <= i < v.1.len() ==> lc_valid(#[trigger] v.1[i], v.0.len()) && lc_valid(v.2[i], v.0.len()) && lc_valid(
            v.3[i],
            v.0.len(),
        )
}

/// Constraint `i` holds under the witness.
pub open spec fn constraint_holds(v: CsView, i: int) -> bool {
    fmul(lc_value(v.1[i], v.0), lc_value(v.2[i], v.0)) == lc_value(v.3[i], v.0)
}

/// Every constraint holds under the witness.
pub open spec fn cs_satisfied(v: CsView) -> bool {
    forall|i: int| 0 <= i < v.1.len() ==> #[trigger] constraint_holds(v, i)
}

/// Extending the witness leaves the value of an allocated combination unchanged.
pub proof fn lemma_lc_value_extend(lc: LcView, w: Seq<nat>, x: nat)
    requires
        lc_valid(lc, w.len()),
    ensures
        lc_value(lc, w.push(x)) == lc_value(lc, w),
    decreases lc.len(),
{
    if lc.len() > 0 {
        lemma_lc_value_extend(lc.drop_last(), w, x);
    }
}

/// `new` extends `old`: the witness and the constraint rows only grow at the end.
pub open spec fn cs_extends(old: CsView, new: CsView) -> bool {
    &&& old.0.len() <= new.0.len()
    &&& new.0.subrange(0, old.0.len() as int) == old.0
    &&& old.1.len() <= new.1.len()
    &&& new.1.subrange(0, old.1.len() as int) == old.1
    &&& new.2.subrange(0, old.1.len() as int) == old.2
    &&& new.3.subrange(0, old.1.len() as int) == old.3
}

/// Every system extends itself.
pub proof fn lemma_extends_refl(v: CsView)
    requires
        cs_wf(v),
    ensures
        cs_extends(v, v),
{
    assert(v.0.subrange(0, v.0.len() as int) =~= v.0);
    assert(v.1.subrange(0, v.1.len() as int) =~= v.1);
    assert(v.2.subrange(0, v.1.len() as int) =~= v.2);
    assert(v.3.subrange(0, v.1.len() as int) =~= v.3);
}

/// Extension is reflexive and transitive.
pub proof fn lemma_extends_trans(a: CsView, b: CsView, c: CsView)
    requires
        cs_wf(a),
        cs_wf(b),
        cs_wf(c),
        cs_extends(a, b),
        cs_extends(b, c),
    ensures
        cs_extends(a, c),
{
    assert(c.0.subrange(0, a.0.len() as int) =~= b.0.subrange(0, a.0.len() as int));
    assert(c.1.subrange(0, a.1.len() as int) =~= b.1.subrange(0, a.1.len() as int));
    assert(c.2.subrange(0, a.1.len() as int) =~= b.2.subrange(0, a.1.len() as int));
    assert(c.3.subrange(0, a.1.len() as int) =~= b.3.subrange(0, a.1.len() as int));
}

/// A combination over allocated variables keeps its value as the system grows.
pub proof fn lemma_value_stable(lc: LcView, old: CsView, new: CsView)
    requires
        cs_extends(old, new),
        lc_valid(lc, old.0.len()),
    ensures
        lc_value(lc, new.0) == lc_value(lc, old.0),
        lc_valid(lc, new.0.len()),
    decreases lc.len(),
{
    if lc.len() > 0 {
        lemma_value_stable(lc.drop_last(), old, new);
        assert(lc[lc.len() - 1].0 < old.0.len());
        assert(new.0[lc.last().0 as int] == new.0.subrange(0, old.0.len() as int)[lc.last().0 as int]);
    }
}

/// The number of rows of the finalized CCS: `max(vars, constraints, 1)` rounded up to
/// a multiple of 54.
pub open spec fn cs_rows(nv: nat, nc: nat) -> nat {
    let need = if nv >= nc { nv } else { nc };
    let need1 = if need >= 1 { need } else { 1 };
    ((need1 + 53) / 54 * 54) as nat
}

/// The dense row of a combination: the sum of the coefficients of each variable.
pub open spec fn dense_spec(lc: LcView, m: nat) -> Seq<nat>
    decreases lc.len(),
{
    if lc.len() == 0 {
        Seq::new(m, |j: int| 0nat)
    } else {
        let p = dense_spec(lc.drop_last(), m);
        p.update(lc.last().0 as int, fadd(p[lc.last().0 as int], lc.last().1))
    }
}

/// The coefficient terms of `f = X_2 X_3 - X_4`.
pub open spec fn r1cs_terms_ok(f: SparsePoly) -> bool {
    &&& f.t == 4
    &&& f.terms@.len() == 2
    &&& f.terms@[0].0@ == 1
    &&& f.terms@[0].1@ == seq![0u32, 1, 1, 0]
    &&& f.terms@[1].0@ == fneg(1)
    &&& f.terms@[1].1@ == seq![0u32, 0, 0, 1]
}

/// An R1CS constraint system that finalizes into a CCS structure.
#[derive(Clone, Debug)]
pub struct ConstraintSystem {
    witness: Vec<Fp>,
    a: Vec<Lc>,
    b: Vec<Lc>,
    c: Vec<Lc>,
}

impl View for ConstraintSystem {
    type V = CsView;

    closed spec fn view(&self) -> CsView {
        (fp_seq(self.witness@), lcs_view(self.a@), lcs_view(self.b@), lcs_view(self.c@))
    }
}

impl ConstraintSystem {
    /// A fresh system whose only variable is the constant-one wire `z[0] = 1`.
    pub fn new() -> (r: ConstraintSystem)
        ensures
            r@ == (seq![1nat], Seq::<LcView>::empty(), Seq::<LcView>::empty(), Seq::<LcView>::empty()),
            cs_wf(r@),
    {
        let mut w: Vec<Fp> = Vec::new();
        w.push(Fp::one());
        let r = ConstraintSystem { witness: w, a: Vec::new(), b: Vec::new(), c: Vec::new() };
        assert(r@.0 =~= seq![1nat]);
        assert(r@.1 =~= Seq::<LcView>::empty());
        assert(r@.2 =~= Seq::<LcView>::empty());
        assert(r@.3 =~= Seq::<LcView>::empty());
        r
    }

    /// The constant-one wire.
    pub fn one(&self) -> (r: Var)
        ensures
            r.0 == 0,
    {
        Var(0)
    }

    /// A constant as a linear combination (`value * one`).
    pub fn constant(&self, value: Fp) -> (r: Lc)
        ensures
            r@ == seq![(0usize, value@)],
    {
        let mut t: Vec<(usize, Fp)> = Vec::new();
        t.push((0, value));
        let r = Lc(t);
        assert(r@ =~= seq![(0usize, value@)]);
        r
    }

    /// Allocate a witness variable holding `value`.
    pub fn allocate(&mut self, value: Fp) -> (r: Var)
        requires
            cs_wf(old(self)@),
        ensures
            r.0 == old(self)@.0.len(),
            final(self)@ == (old(self)@.0.push(value@), old(self)@.1, old(self)@.2, old(self)@.3),
            cs_wf(final(self)@),
            cs_extends(old(self)@, final(self)@),
            cs_satisfied(final(self)@) <==> cs_satisfied(old(self)@),
    {
        let idx = self.witness.len();
        self.witness.push(value);
        proof {
            assert(self@.0 =~= old(self)@.0.push(value@));
            assert forall|i: int| 0 <= i < self@.1.len() implies lc_valid(#[trigger] self@.1[i], self@.0.len()) && lc_valid(
                self@.2[i],
                self@.0.len(),
            ) && lc_valid(self@.3[i], self@.0.len()) by {
                assert(lc_valid(old(self)@.1[i], old(self)@.0.len()));
            }
            assert(self@.0.subrange(0, old(self)@.0.len() as int) =~= old(self)@.0);
            assert(self@.1.subrange(0, old(self)@.1.len() as int) =~= old(self)@.1);
            assert(self@.2.subrange(0, old(self)@.1.len() as int) =~= old(self)@.2);
            assert(self@.3.subrange(0, old(self)@.1.len() as int) =~= old(self)@.3);
            assert forall|i: int| 0 <= i < self@.1.len() implies #[trigger] constraint_holds(self@, i) == constraint_holds(old(self)@, i) by {
                assert(lc_valid(old(self)@.1[i], old(self)@.0.len()));
                lemma_lc_value_extend(old(self)@.1[i], old(self)@.0, value@);
                lemma_lc_value_extend(old(self)@.2[i], old(self)@.0, value@);
                lemma_lc_value_extend(old(self)@.3[i], old(self)@.0, value@);
            }
            if cs_satisfied(old(self)@) {
                assert forall|i: int| 0 <= i < self@.1.len() implies #[trigger] constraint_holds(self@, i) by {
                    assert(constraint_holds(self@, i) == constraint_holds(old(self)@, i));
                }
            }
            if cs_satisfied(self@) {
                assert forall|i: int| 0 <= i < old(self)@.1.len() implies #[trigger] constraint_holds(old(self)@, i) by {
                    assert(constraint_holds(self@, i) == constraint_holds(old(self)@, i));
                }
            }
        }
        Var(idx)
    }

    /// Evaluate a linear combination against the live witness.
    pub fn eval(&self, lc: &Lc) -> (r: Fp)
        requires
            lc_valid(lc@, self@.0.len()),
        ensures
            r@ == lc_value(lc@, self@.0),
    {
        let mut acc = Fp::zero();
        let mut i: usize = 0;
        while i < lc.0.len()
            invariant
                i <= lc.0@.len(),
                lc_valid(lc@, self@.0.len()),
                acc@ == lc_value(lc@.take(i as int), self@.0),
            decreases lc.0@.len() - i,
        {
            let (v, c) = lc.0[i];
            assert(lc@[i as int].0 < self@.0.len());
            let t = c * self.witness[v];
            proof {
                assert(lc@.take(i + 1).drop_last() =~= lc@.take(i as int));
            }
            acc = acc + t;
            i = i + 1;
        }
        assert(lc@.take(lc.0@.len() as int) =~= lc@);
        acc
    }

    /// Impose `<a, z> <b, z> = <c, z>`. The constraint is recorded, not checked.
    pub fn enforce(&mut self, a: Lc, b: Lc, c: Lc)
        requires
            cs_wf(old(self)@),
            lc_valid(a@, old(self)@.0.len()),
            lc_valid(b@, old(self)@.0.len()),
            lc_valid(c@, old(self)@.0.len()),
        ensures
            final(self)@ == (old(self)@.0, old(self)@.1.push(a@), old(self)@.2.push(b@), old(self)@.3.push(c@)),
            cs_wf(final(self)@),
            cs_extends(old(self)@, final(self)@),
    {
        let ghost av = a@;
        let ghost bv = b@;
        let ghost cv = c@;
        self.a.push(a);
        self.b.push(b);
        self.c.push(c);
        proof {
            assert(self@.1 =~= old(self)@.1.push(av));
            assert(self@.2 =~= old(self)@.2.push(bv));
            assert(self@.3 =~= old(self)@.3.push(cv));
            assert(self@.0.subrange(0, old(self)@.0.len() as int) =~= old(self)@.0);
            assert(self@.1.subrange(0, old(self)@.1.len() as int) =~= old(self)@.1);
            assert(self@.2.subrange(0, old(self)@.1.len() as int) =~= old(self)@.2);
            assert(self@.3.subrange(0, old(self)@.1.len() as int) =~= old(self)@.3);
        }
    }

    /// Allocate `p = <a, z> <b, z>`, impose `a b = p`, and return `p`.
    pub fn mul(&mut self, a: &Lc, b: &Lc) -> (p: Var)
        requires
            cs_wf(old(self)@),
            lc_valid(a@, old(self)@.0.len()),
            lc_valid(b@, old(self)@.0.len()),
        ensures
            p.0 == old(self)@.0.len(),
            final(self)@ == (
                old(self)@.0.push(fmul(lc_value(a@, old(self)@.0), lc_value(b@, old(self)@.0))),
                old(self)@.1.push(a@),
                old(self)@.2.push(b@),
                old(self)@.3.push(seq![(p.0, 1nat)]),
            ),
            cs_wf(final(self)@),
            cs_extends(old(self)@, final(self)@),
            cs_satisfied(final(self)@) <==> cs_satisfied(old(self)@),
    {
        let value = self.eval(a) * self.eval(b);
        let p = self.allocate(value);
        let ghost mid = self@;
        proof {
            lemma_lc_value_extend(a@, old(self)@.0, value@);
            lemma_lc_value_extend(b@, old(self)@.0, value@);
        }
        let ac = Lc(vstd::slice::slice_to_vec(a.0.as_slice()));
        let bc = Lc(vstd::slice::slice_to_vec(b.0.as_slice()));
        assert(ac@ =~= a@);
        assert(bc@ =~= b@);
        self.enforce(ac, bc, Lc::from_var(p));
        proof {
            lemma_extends_trans(old(self)@, mid, self@);
            let v = self@;
            if cs_satisfied(v) {
                assert forall|i: int| 0 <= i < old(self)@.1.len() implies #[trigger] constraint_holds(old(self)@, i) by {
                    assert(constraint_holds(v, i));
                    assert(lc_valid(old(self)@.1[i], old(self)@.0.len()));
                    assert(v.1[i] == old(self)@.1[i]);
                    assert(v.2[i] == old(self)@.2[i]);
                    assert(v.3[i] == old(self)@.3[i]);
                    lemma_lc_value_extend(old(self)@.1[i], old(self)@.0, value@);
                    lemma_lc_value_extend(old(self)@.2[i], old(self)@.0, value@);
                    lemma_lc_value_extend(old(self)@.3[i], old(self)@.0, value@);
                }
            }
            assert forall|i: int| cs_satisfied(old(self)@) && 0 <= i < v.1.len() implies #[trigger] constraint_holds(v, i) by {
                if i < old(self)@.1.len() {
                    assert(constraint_holds(old(self)@, i));
                    assert(lc_valid(old(self)@.1[i], old(self)@.0.len()));
                    assert(lc_valid(old(self)@.2[i], old(self)@.0.len()));
                    assert(lc_valid(old(self)@.3[i], old(self)@.0.len()));
                    assert(v.1[i] == old(self)@.1[i]);
                    assert(v.2[i] == old(self)@.2[i]);
                    assert(v.3[i] == old(self)@.3[i]);
                    lemma_lc_value_extend(old(self)@.1[i], old(self)@.0, value@);
                    lemma_lc_value_extend(old(self)@.2[i], old(self)@.0, value@);
                    lemma_lc_value_extend(old(self)@.3[i], old(self)@.0, value@);
                } else {
                    let l = seq![(p.0, 1nat)];
                    assert(l.drop_last() =~= Seq::<(usize, nat)>::empty());
                    assert(v.0[p.0 as int] == value@);
                    assert(fmul(1, value@) == value@);
                    lemma_lc_value_single(p.0, 1, v.0);
                    assert(lc_value(l, v.0) == value@);
                    assert(v.1[i] == a@);
                    assert(v.2[i] == b@);
                    assert(v.3[i] == l);
                }
            }
        }
        p
    }

    /// Impose `<a, z> = <b, z>` (as `(a - b) * 1 = 0`).
    pub fn assert_eq(&mut self, a: &Lc, b: &Lc)
        requires
            cs_wf(old(self)@),
            lc_valid(a@, old(self)@.0.len()),
            lc_valid(b@, old(self)@.0.len()),
        ensures
            final(self)@.0 == old(self)@.0,
            final(self)@.1.len() == old(self)@.1.len() + 1,
            cs_wf(final(self)@),
            cs_extends(old(self)@, final(self)@),
            cs_satisfied(final(self)@) <==> (cs_satisfied(old(self)@) && lc_value(a@, old(self)@.0) == lc_value(b@, old(self)@.0)),
    {
        let d = a.sub(b);
        let o = Lc::from_var(self.one());
        proof {
            let w = old(self)@.0;
            lemma_lc_value_append(a@, lc_neg(b@), w);
            lemma_lc_value_neg(b@, w);
            assert forall|i: int| 0 <= i < d@.len() implies (#[trigger] d@[i]).0 < w.len() by {
                if i >= a@.len() {
                    assert(d@[i] == lc_neg(b@)[i - a@.len()]);
                }
            }
        }
        self.enforce(d, o, Lc::zero());
        proof {
            let v = self@;
            let w = old(self)@.0;
            let av = lc_value(a@, w) as int;
            let bv = lc_value(b@, w) as int;
            lemma_lc_value_lt(a@, w);
            lemma_lc_value_lt(b@, w);
            let last = old(self)@.1.len() as int;
            let o1 = seq![(0usize, 1nat)];
            assert(o1.drop_last() =~= Seq::<(usize, nat)>::empty());
            assert(fmul(1, w[0]) == 1);
            lemma_lc_value_single(0, 1, w);
            assert(lc_value(o1, w) == 1);
            lemma_fmod_sub(av, bv);
            assert(lc_value(v.1[last], w) == fsub(av as nat, bv as nat)) by {
                lemma_fmod_add(av, fneg(bv as nat) as int);
                lemma_fmod_neg(bv);
                lemma_fmod_add(av, -bv);
            }
            assert(v.2[last] == o1);
            assert(v.3[last] =~= Seq::<(usize, nat)>::empty());
            assert(lc_value(v.3[last], w) == 0);
            assert(fmul(fsub(av as nat, bv as nat), 1) == fsub(av as nat, bv as nat));
            assert(constraint_holds(v, last) <==> av == bv) by {
                if fsub(av as nat, bv as nat) == 0 {
                    assert(fmod(av - bv) == 0);
                    assert(-(crate::Q as int) < av - bv < crate::Q);
                }
            }
            assert(cs_satisfied(v) <==> (cs_satisfied(old(self)@) && av == bv)) by {
                if cs_satisfied(v) {
                    assert(constraint_holds(v, last));
                    assert forall|i: int| 0 <= i < old(self)@.1.len() implies #[trigger] constraint_holds(old(self)@, i) by {
                        assert(constraint_holds(v, i));
                    }
                }
                if cs_satisfied(old(self)@) && av == bv {
                    assert forall|i: int| 0 <= i < v.1.len() implies #[trigger] constraint_holds(v, i) by {
                        if i < last {
                            assert(constraint_holds(old(self)@, i));
                        }
                    }
                }
            }
        }
    }

    /// Number of variables (witness length).
    pub fn num_vars(&self) -> (r: usize)
        ensures
            r == self@.0.len(),
    {
        self.witness.len()
    }

    /// Number of rank-1 constraints.
    pub fn num_constraints(&self) -> (r: usize)
        ensures
            r == self@.1.len(),
    {
        self.a.len()
    }

    /// Whether every constraint holds under the live witness.
    pub fn is_satisfied(&self) -> (r: bool)
        requires
            cs_wf(self@),
        ensures
            r == cs_satisfied(self@),
    {
        let mut i: usize = 0;
        while i < self.a.len()
            invariant
                i <= self@.1.len(),
                cs_wf(self@),
                forall|j: int| 0 <= j < i ==> #[trigger] constraint_holds(self@, j),
            decreases self@.1.len() - i,
        {
            assert(self@.1[i as int] == self.a@[i as int]@);
            assert(self@.2[i as int] == self.b@[i as int]@);
            assert(self@.3[i as int] == self.c@[i as int]@);
            assert(lc_valid(self@.1[i as int], self@.0.len()));
            let x = self.eval(&self.a[i]);
            let y = self.eval(&self.b[i]);
            let z = self.eval(&self.c[i]);
            if !(x * y).equals(z) {
                assert(!constraint_holds(self@, i as int));
                return false;
            }
            i = i + 1;
        }
        true
    }

    /// Densify a linear combination into a length-`m` row.
    fn dense_row(lc: &Lc, m: usize) -> (row: Vec<Fp>)
        requires
            lc_valid(lc@, m as nat),
        ensures
            fp_seq(row@) == dense_spec(lc@, m as nat),
            row@.len() == m,
    {
        let mut row: Vec<Fp> = Vec::new();
        let mut j: usize = 0;
        while j < m
            invariant
                j <= m,
                row@.len() == j,
                forall|t: int| 0 <= t < j ==> (#[trigger] row@[t])@ == 0,
            decreases m - j,
        {
            row.push(Fp::zero());
            j = j + 1;
        }
        assert(fp_seq(row@) =~= dense_spec(lc@.take(0), m as nat));
        let mut i: usize = 0;
        while i < lc.0.len()
            invariant
                i <= lc.0@.len(),
                lc_valid(lc@, m as nat),
                row@.len() == m,
                fp_seq(row@) == dense_spec(lc@.take(i as int), m as nat),
            decreases lc.0@.len() - i,
        {
            let (v, c) = lc.0[i];
            assert(lc@[i as int].0 < m);
            let next = row[v] + c;
            row.set(v, next);
            proof {
                assert(lc@.take(i + 1).drop_last() =~= lc@.take(i as int));
                assert(fp_seq(row@) =~= dense_spec(lc@.take(i + 1), m as nat));
            }
            i = i + 1;
        }
        assert(lc@.take(lc.0@.len() as int) =~= lc@);
        row
    }
}

/// The rows `which` (1 = `a`, 2 = `b`, 3 = `c`) of a system, densified and padded with
/// zero rows to `m x m`.
pub open spec fn cs_matrix(v: CsView, which: int, m: nat) -> Seq<Seq<nat>> {
    let rows = if which == 1 {
        v.1
    } else if which == 2 {
        v.2
    } else {
        v.3
    };
    Seq::new(m, |r: int| if r < rows.len() { dense_spec(rows[r], m) } else { Seq::new(m, |j: int| 0nat) })
}

/// The witness zero-padded to length `m`.
pub open spec fn cs_z(v: CsView, m: nat) -> Seq<nat> {
    Seq::new(m, |i: int| if i < v.0.len() { v.0[i] } else { 0nat })
}

/// The finalized relation `A z o B z = C z` holds row by row.
pub open spec fn finalized_holds(v: CsView, m: nat) -> bool {
    let z = cs_z(v, m);
    forall|row: int|
        0 <= row < m ==> fmul(
            #[trigger] matvec_spec(cs_matrix(v, 1, m), z)[row],
            matvec_spec(cs_matrix(v, 2, m), z)[row],
        ) == matvec_spec(cs_matrix(v, 3, m), z)[row]
}

impl Default for ConstraintSystem {
    fn default() -> (r: ConstraintSystem)
        ensures
            r@ == (seq![1nat], Seq::<LcView>::empty(), Seq::<LcView>::empty(), Seq::<LcView>::empty()),
    {
        ConstraintSystem::new()
    }
}

impl ConstraintSystem {
    /// The `m` dense rows of one constraint column (zero rows past the constraints).
    fn dense_matrix(rows: &[Lc], m: usize) -> (mat: Vec<Vec<Fp>>)
        requires
            rows@.len() <= m,
            forall|r: int| 0 <= r < rows@.len() ==> lc_valid((#[trigger] rows@[r])@, m as nat),
        ensures
            mat@.len() == m,
            forall|r: int| 0 <= r < m ==> (#[trigger] mat@[r])@.len() == m,
            mat_seq(mat@) == Seq::new(
                m as nat,
                |r: int| if r < rows@.len() { dense_spec(rows@[r]@, m as nat) } else { Seq::new(m as nat, |j: int| 0nat) },
            ),
    {
        let mut mat: Vec<Vec<Fp>> = Vec::new();
        let mut r: usize = 0;
        while r < m
            invariant
                r <= m,
                rows@.len() <= m,
                forall|r2: int| 0 <= r2 < rows@.len() ==> lc_valid((#[trigger] rows@[r2])@, m as nat),
                mat@.len() == r,
                forall|r2: int| 0 <= r2 < r ==> (#[trigger] mat@[r2])@.len() == m,
                forall|r2: int|
                    0 <= r2 < r ==> fp_seq((#[trigger] mat@[r2])@) == (if r2 < rows@.len() {
                        dense_spec(rows@[r2]@, m as nat)
                    } else {
                        Seq::new(m as nat, |j: int| 0nat)
                    }),
            decreases m - r,
        {
            if r < rows.len() {
                mat.push(ConstraintSystem::dense_row(&rows[r], m));
            } else {
                let mut zeros: Vec<Fp> = Vec::new();
                let mut j: usize = 0;
                while j < m
                    invariant
                        j <= m,
                        zeros@.len() == j,
                        forall|t: int| 0 <= t < j ==> (#[trigger] zeros@[t])@ == 0,
                    decreases m - j,
                {
                    zeros.push(Fp::zero());
                    j = j + 1;
                }
                assert(fp_seq(zeros@) =~= Seq::new(m as nat, |j2: int| 0nat));
                mat.push(zeros);
            }
            r = r + 1;
        }
        assert(mat_seq(mat@) =~= Seq::new(
            m as nat,
            |r2: int| if r2 < rows@.len() { dense_spec(rows@[r2]@, m as nat) } else { Seq::new(m as nat, |j: int| 0nat) },
        ));
        mat
    }

    /// Finalize into a CCS structure and its padded witness vector.
    ///
    /// `m` is the smallest multiple of 54 that is at least the number of variables, the
    /// number of constraints, and one. The matrices are `(I_m, A, B, C)` with one dense
    /// row per constraint (zero rows after them) and `f = X_2 X_3 - X_4`; the witness
    /// is zero-padded to `m`.
    pub fn finalize(&self) -> (res: (CcsStructure, Vec<Fp>))
        requires
            cs_wf(self@),
            self@.0.len() + 54 <= usize::MAX,
            self@.1.len() + 54 <= usize::MAX,
        ensures
            ({
                let m = cs_rows(self@.0.len(), self@.1.len());
                &&& res.0.wf()
                &&& res.0.m == m
                &&& m % 54 == 0
                &&& m >= self@.0.len()
                &&& m >= self@.1.len()
                &&& res.0.matrices@.len() == 4
                &&& res.0.mat(1) == cs_matrix(self@, 1, m)
                &&& res.0.mat(2) == cs_matrix(self@, 2, m)
                &&& res.0.mat(3) == cs_matrix(self@, 3, m)
                &&& r1cs_terms_ok(res.0.f)
                &&& fp_seq(res.1@) == cs_z(self@, m)
            }),
    {
        let nv = self.witness.len();
        let nc = self.a.len();
        let mut need = if nv >= nc {
            nv
        } else {
            nc
        };
        if need < 1 {
            need = 1;
        }
        let m = (need + 53) / 54 * 54;
        assert(m >= need) by (nonlinear_arith)
            requires m == (need + 53) / 54 * 54, need >= 1;
        assert(m % 54 == 0) by (nonlinear_arith)
            requires m == (need + 53) / 54 * 54;
        proof {
            assert forall|r: int| 0 <= r < self.a@.len() implies lc_valid((#[trigger] self.a@[r])@, m as nat) by {
                assert(self@.1[r] == self.a@[r]@);
                assert(lc_valid(self@.1[r], self@.0.len()));
            }
            assert forall|r: int| 0 <= r < self.b@.len() implies lc_valid((#[trigger] self.b@[r])@, m as nat) by {
                assert(self@.2[r] == self.b@[r]@);
                assert(lc_valid(self@.1[r], self@.0.len()));
                assert(lc_valid(self@.2[r], self@.0.len()));
            }
            assert forall|r: int| 0 <= r < self.c@.len() implies lc_valid((#[trigger] self.c@[r])@, m as nat) by {
                assert(self@.3[r] == self.c@[r]@);
                assert(lc_valid(self@.1[r], self@.0.len()));
                assert(lc_valid(self@.3[r], self@.0.len()));
            }
        }
        let id = identity_matrix(m);
        let mat_a = ConstraintSystem::dense_matrix(self.a.as_slice(), m);
        let mat_b = ConstraintSystem::dense_matrix(self.b.as_slice(), m);
        let mat_c = ConstraintSystem::dense_matrix(self.c.as_slice(), m);
        let mut terms: Vec<(Fp, Vec<u32>)> = Vec::new();
        terms.push((Fp::one(), vec![0u32, 1, 1, 0]));
        terms.push((Fp::one().neg(), vec![0u32, 0, 0, 1]));
        let f = SparsePoly::new(4, terms);
        let mut mats: Vec<Vec<Vec<Fp>>> = Vec::new();
        mats.push(id);
        mats.push(mat_a);
        mats.push(mat_b);
        mats.push(mat_c);
        let structure = CcsStructure::new(mats, f);
        let mut z: Vec<Fp> = Vec::new();
        let mut i: usize = 0;
        while i < m
            invariant
                i <= m,
                nv == self@.0.len(),
                nv <= m,
                z@.len() == i,
                forall|t: int| 0 <= t < i ==> (#[trigger] z@[t])@ == cs_z(self@, m as nat)[t],
            decreases m - i,
        {
            if i < nv {
                z.push(self.witness[i]);
            } else {
                z.push(Fp::zero());
            }
            i = i + 1;
        }
        proof {
            assert(fp_seq(z@) =~= cs_z(self@, m as nat));
            assert(lcs_view(self.a@) == self@.1);
            assert(structure.mat(1) =~= cs_matrix(self@, 1, m as nat));
            assert(structure.mat(2) =~= cs_matrix(self@, 2, m as nat));
            assert(structure.mat(3) =~= cs_matrix(self@, 3, m as nat));
        }
        (structure, z)
    }

    /// Whether the finalized witness satisfies `A z o B z = C z`.
    pub fn finalized_relation_holds(&self) -> (r: bool)
        requires
            cs_wf(self@),
            self@.0.len() + 54 <= usize::MAX,
            self@.1.len() + 54 <= usize::MAX,
        ensures
            r == finalized_holds(self@, cs_rows(self@.0.len(), self@.1.len())),
    {
        let (s, z) = self.finalize();
        let ghost m = cs_rows(self@.0.len(), self@.1.len());
        let az = crate::types::field_matvec(s.matrices[1].as_slice(), z.as_slice());
        let bz = crate::types::field_matvec(s.matrices[2].as_slice(), z.as_slice());
        let cz = crate::types::field_matvec(s.matrices[3].as_slice(), z.as_slice());
        let ghost zz = cs_z(self@, m);
        proof {
            assert(fp_seq(az@) =~= matvec_spec(cs_matrix(self@, 1, m), zz));
            assert(fp_seq(bz@) =~= matvec_spec(cs_matrix(self@, 2, m), zz));
            assert(fp_seq(cz@) =~= matvec_spec(cs_matrix(self@, 3, m), zz));
        }
        let mut i: usize = 0;
        while i < az.len()
            invariant
                i <= az@.len(),
                m == cs_rows(self@.0.len(), self@.1.len()),
                az@.len() == m,
                bz@.len() == m,
                cz@.len() == m,
                fp_seq(az@) == matvec_spec(cs_matrix(self@, 1, m), zz),
                fp_seq(bz@) == matvec_spec(cs_matrix(self@, 2, m), zz),
                fp_seq(cz@) == matvec_spec(cs_matrix(self@, 3, m), zz),
                zz == cs_z(self@, m),
                forall|row: int|
                    0 <= row < i ==> fmul(
                        #[trigger] matvec_spec(cs_matrix(self@, 1, m), zz)[row],
                        matvec_spec(cs_matrix(self@, 2, m), zz)[row],
                    ) == matvec_spec(cs_matrix(self@, 3, m), zz)[row],
            decreases az@.len() - i,
        {
            if !(az[i] * bz[i]).equals(cz[i]) {
                assert(fp_seq(az@)[i as int] == az@[i as int]@);
                assert(fp_seq(bz@)[i as int] == bz@[i as int]@);
                assert(fp_seq(cz@)[i as int] == cz@[i as int]@);
                assert(fmul(
                    matvec_spec(cs_matrix(self@, 1, m), zz)[i as int],
                    matvec_spec(cs_matrix(self@, 2, m), zz)[i as int],
                ) != matvec_spec(cs_matrix(self@, 3, m), zz)[i as int]);
                assert(0 <= i < m);
                assert(!finalized_holds(self@, m));
                return false;
            }
            assert(fp_seq(az@)[i as int] == az@[i as int]@);
            assert(fp_seq(bz@)[i as int] == bz@[i as int]@);
            assert(fp_seq(cz@)[i as int] == cz@[i as int]@);
            i = i + 1;
        }
        true
    }
}

/// Updating one entry of a row changes its dot product by that entry's difference.
proof fn lemma_dot_update(p: Seq<nat>, z: Seq<nat>, j: int, x: nat, n: int)
    requires
        0 <= j < p.len(),
        n <= p.len(),
    ensures
        dot(p.update(j, x), z, n) == dot(p, z, n) + (if j < n { (x - p[j]) * z[j] } else { 0 }),
    decreases n,
{
    if n > 0 {
        lemma_dot_update(p, z, j, x, n - 1);
        if j == n - 1 {
            assert((x - p[j]) * z[j] == x * z[j] - p[j] * z[j]) by (nonlinear_arith);
        }
    }
}

/// An all-zero row has dot product zero.
proof fn lemma_dot_zero(m: nat, z: Seq<nat>, n: int)
    requires
        n <= m,
    ensures
        dot(Seq::new(m, |j: int| 0nat), z, n) == 0,
    decreases n,
{
    if n > 0 {
        lemma_dot_zero(m, z, n - 1);
    }
}

/// The dense row of a combination over the padded witness has the combination's value.
proof fn lemma_dense_value(lc: LcView, w: Seq<nat>, m: nat, z: Seq<nat>)
    requires
        lc_valid(lc, w.len()),
        w.len() <= m,
        z.len() == m,
        forall|i: int| 0 <= i < w.len() ==> #[trigger] z[i] == w[i],
        forall|i: int| 0 <= i < w.len() ==> #[trigger] w[i] < crate::Q,
    ensures
        fmod(dot(dense_spec(lc, m), z, m as int)) == lc_value(lc, w),
        dense_spec(lc, m).len() == m,
    decreases lc.len(),
{
    if lc.len() == 0 {
        lemma_dot_zero(m, z, m as int);
    } else {
        let rest = lc.drop_last();
        assert(lc_valid(rest, w.len()));
        lemma_dense_value(rest, w, m, z);
        let p = dense_spec(rest, m);
        let j = lc.last().0 as int;
        let c = lc.last().1;
        assert(lc_valid(lc, w.len()));
        assert(j < w.len());
        let pj = p[j];
        let x = fadd(pj, c);
        lemma_dot_update(p, z, j, x, m as int);
        let d = dot(p, z, m as int);
        let zj = z[j] as int;
        let q: int = (pj + c) as int / (Q as int);
        assert(x == (pj + c) - (Q as int) * q);
        assert((x - pj) * zj == c * zj + (Q as int) * (-(q * zj))) by (nonlinear_arith)
            requires
                x == (pj + c) - (Q as int) * q,
        ;
        lemma_fmod_multiple(d + c * zj, -(q * zj));
        lemma_fmod_add(d, c * zj);
        assert(lc_value(lc, w) == fadd(lc_value(rest, w), fmul(c, w[j])));
    }
}

/// Finalizing keeps the relation: the padded `A z o B z = C z` holds row by row
/// exactly when every recorded constraint holds under the live witness.
pub proof fn law_finalize_preserves_satisfaction(v: CsView)
    requires
        cs_wf(v),
        forall|i: int| 0 <= i < v.0.len() ==> #[trigger] v.0[i] < crate::Q,
    ensures
        finalized_holds(v, cs_rows(v.0.len(), v.1.len())) <==> cs_satisfied(v),
{
    let m = cs_rows(v.0.len(), v.1.len());
    let nv = v.0.len() as int;
    let nc = v.1.len() as int;
    let need = if nv >= nc { nv } else { nc };
    let need1 = if need >= 1 { need } else { 1 };
    assert((need1 + 53) / 54 * 54 >= need1) by (nonlinear_arith)
        requires
            need1 >= 1,
    ;
    let z = cs_z(v, m);
    assert forall|r: int| 0 <= r < m implies (#[trigger] matvec_spec(cs_matrix(v, 1, m), z)[r] == (if r < nc {
        lc_value(v.1[r], v.0)
    } else {
        0
    })) && matvec_spec(cs_matrix(v, 2, m), z)[r] == (if r < nc {
        lc_value(v.2[r], v.0)
    } else {
        0
    }) && matvec_spec(cs_matrix(v, 3, m), z)[r] == (if r < nc {
        lc_value(v.3[r], v.0)
    } else {
        0
    }) by {
        if r < nc {
            lemma_dense_value(v.1[r], v.0, m, z);
            lemma_dense_value(v.2[r], v.0, m, z);
            lemma_dense_value(v.3[r], v.0, m, z);
        } else {
            lemma_dot_zero(m, z, m as int);
        }
    }
    if cs_satisfied(v) {
        assert forall|r: int| 0 <= r < m implies fmul(
            #[trigger] matvec_spec(cs_matrix(v, 1, m), z)[r],
            matvec_spec(cs_matrix(v, 2, m), z)[r],
        ) == matvec_spec(cs_matrix(v, 3, m), z)[r] by {
            if r < nc {
                assert(constraint_holds(v, r));
            }
        }
    }
    if finalized_holds(v, m) {
        assert forall|r: int| 0 <= r < nc implies #[trigger] constraint_holds(v, r) by {
            assert(fmul(matvec_spec(cs_matrix(v, 1, m), z)[r], matvec_spec(cs_matrix(v, 2, m), z)[r])
                == matvec_spec(cs_matrix(v, 3, m), z)[r]);
        }
    }
}

} // verus!
