//! The extension ring `R_K = K[X]/(Phi)`, `Phi = X^54 + X^27 + 1`.
//!
//! An element is viewed as its 54 coefficients in `K`, each a pair of residues.
//! Since `R_F` sits inside `R_K` coordinate-wise, the mixed product `R_K x R_F`
//! acts on the two base-field components of the coefficients separately.

use vstd::prelude::*;

use crate::ext2::{e2_add, e2_base, e2_canon, e2_mul, e2_scale, Ext2, E2};
use crate::fp::{fp_seq, lemma_fmod_small, lemma_fp_lt_q, Fp};
use crate::ring::{lemma_ring_wf, ring_mul, ring_wf, RingElem, D};

verus! {

broadcast use {lemma_fp_lt_q, lemma_fmod_small, lemma_ring_wf};

/// The first (constant-in-`u`) components of a sequence of `K` coefficients.
pub open spec fn comp0(y: Seq<E2>) -> Seq<nat> {
    y.map_values(|e: E2| e.0)
}

/// The second (`u`) components of a sequence of `K` coefficients.
pub open spec fn comp1(y: Seq<E2>) -> Seq<nat> {
    y.map_values(|e: E2| e.1)
}

/// The mixed product `y * r` in `R_K`, for `r` in `R_F`.
pub open spec fn rk_mul_rf(y: Seq<E2>, r: Seq<nat>) -> Seq<E2> {
    Seq::new(D as nat, |i: int| (ring_mul(comp0(y), r)[i], ring_mul(comp1(y), r)[i]))
}

/// The sum in `R_K`.
pub open spec fn rk_add(a: Seq<E2>, b: Seq<E2>) -> Seq<E2> {
    Seq::new(D as nat, |i: int| e2_add(a[i], b[i]))
}

/// Scaling by a base-field residue.
pub open spec fn rk_scale_fp(a: Seq<E2>, s: nat) -> Seq<E2> {
    Seq::new(D as nat, |i: int| e2_mul(a[i], e2_base(s)))
}

/// Scaling by an extension element.
pub open spec fn rk_scale_ext(a: Seq<E2>, k: E2) -> Seq<E2> {
    Seq::new(D as nat, |i: int| e2_mul(a[i], k))
}

/// The coefficient-wise embedding of `R_F` into `R_K`.
pub open spec fn rk_from_rf(a: Seq<nat>) -> Seq<E2> {
    Seq::new(D as nat, |i: int| e2_base(a[i]))
}

/// The zero of `R_K`.
pub open spec fn rk_zero() -> Seq<E2> {
    Seq::new(D as nat, |i: int| (0nat, 0nat))
}

/// The constant `k` as an element of `R_K`.
pub open spec fn rk_const(k: E2) -> Seq<E2> {
    Seq::new(D as nat, |i: int| if i == 0 { k } else { (0nat, 0nat) })
}

/// 54 canonical coefficients in `K`.
pub open spec fn rk_wf(a: Seq<E2>) -> bool {
    a.len() == D && forall|i: int| 0 <= i < D ==> e2_canon(#[trigger] a[i])
}

/// An element of `R_K`, stored as its coefficient array in `K^54`.
#[derive(Clone, Copy, PartialEq, Eq, Debug)]
pub struct RingK([Ext2; D]);

impl View for RingK {
    type V = Seq<E2>;

    closed spec fn view(&self) -> Seq<E2> {
        self.0@.map_values(|e: Ext2| e@)
    }
}

/// Every element of `R_K` has 54 canonical coefficients.
pub broadcast proof fn lemma_rk_wf(a: RingK)
    ensures
        #[trigger] rk_wf(a@),
{
}

impl RingK {
    /// The zero element.
    pub fn zero() -> (r: RingK)
        ensures
            r@ == rk_zero(),
    {
        let r = RingK([Ext2::zero();D]);
        assert(r@ =~= rk_zero());
        r
    }

    /// Build from a full coefficient array.
    pub fn from_coeffs(c: [Ext2; D]) -> (r: RingK)
        ensures
            r@ == c@.map_values(|e: Ext2| e@),
    {
        RingK(c)
    }

    /// Embed an `R_F` element into `R_K` (coefficient-wise `F` into `K`).
    pub fn from_rf(a: &RingElem) -> (r: RingK)
        ensures
            r@ == rk_from_rf(a@),
    {
        let mut c = [Ext2::zero();D];
        let mut i: usize = 0;
        while i < D
            invariant
                i <= D,
                forall|j: int| 0 <= j < i ==> (#[trigger] c@[j])@ == e2_base(a@[j]),
            decreases D - i,
        {
            c[i] = Ext2::from_base(a.coeff(i));
            i = i + 1;
        }
        let r = RingK(c);
        assert(r@ =~= rk_from_rf(a@));
        r
    }

    /// A constant ring element `k` in `K` (degree 0).
    pub fn from_const(k: Ext2) -> (r: RingK)
        ensures
            r@ == rk_const(k@),
    {
        let mut c = [Ext2::zero();D];
        c[0] = k;
        let r = RingK(c);
        assert(r@ =~= rk_const(k@));
        r
    }

    /// Borrow the coefficient array.
    pub fn coeffs(&self) -> (r: &[Ext2; D])
        ensures
            r@.map_values(|e: Ext2| e@) == self@,
    {
        &self.0
    }

    /// The `l`-th coefficient.
    pub fn coeff(&self, l: usize) -> (r: Ext2)
        requires
            l < D,
        ensures
            r@ == self@[l as int],
    {
        self.0[l]
    }

    /// The constant term `ct(a) = c_0` in `K`.
    pub fn ct(&self) -> (r: Ext2)
        ensures
            r@ == self@[0],
    {
        self.0[0]
    }

    /// Equality, decided on the coefficient residues.
    pub fn equals(&self, other: &RingK) -> (r: bool)
        ensures
            r == (self@ == other@),
    {
        let mut i: usize = 0;
        while i < D
            invariant
                i <= D,
                forall|j: int| 0 <= j < i ==> self@[j] == other@[j],
            decreases D - i,
        {
            if !self.0[i].equals(other.0[i]) {
                assert(self@[i as int] != other@[i as int]);
                return false;
            }
            i = i + 1;
        }
        assert(self@ =~= other@);
        true
    }

    /// Component-wise sum.
    pub fn add(&self, other: &RingK) -> (r: RingK)
        ensures
            r@ == rk_add(self@, other@),
    {
        let mut c = [Ext2::zero();D];
        let mut i: usize = 0;
        while i < D
            invariant
                i <= D,
                forall|j: int| 0 <= j < i ==> (#[trigger] c@[j])@ == e2_add(self@[j], other@[j]),
            decreases D - i,
        {
            c[i] = self.0[i] + other.0[i];
            i = i + 1;
        }
        let r = RingK(c);
        assert(r@ =~= rk_add(self@, other@));
        r
    }

    /// Scale by a base-field element `s`.
    pub fn scale_fp(&self, s: Fp) -> (r: RingK)
        ensures
            r@ == rk_scale_fp(self@, s@),
    {
        let se = Ext2::from_base(s);
        let mut c = [Ext2::zero();D];
        let mut i: usize = 0;
        while i < D
            invariant
                i <= D,
                se@ == e2_base(s@),
                forall|j: int| 0 <= j < i ==> (#[trigger] c@[j])@ == e2_mul(self@[j], e2_base(s@)),
            decreases D - i,
        {
            c[i] = self.0[i] * se;
            i = i + 1;
        }
        let r = RingK(c);
        assert(r@ =~= rk_scale_fp(self@, s@));
        r
    }

    /// Scale by an extension element `k`.
    pub fn scale_ext(&self, k: Ext2) -> (r: RingK)
        ensures
            r@ == rk_scale_ext(self@, k@),
    {
        let mut c = [Ext2::zero();D];
        let mut i: usize = 0;
        while i < D
            invariant
                i <= D,
                forall|j: int| 0 <= j < i ==> (#[trigger] c@[j])@ == e2_mul(self@[j], k@),
            decreases D - i,
        {
            c[i] = self.0[i] * k;
            i = i + 1;
        }
        let r = RingK(c);
        assert(r@ =~= rk_scale_ext(self@, k@));
        r
    }

    /// The `R_F` elements formed by the two base-field components.
    fn components(&self) -> (r: (RingElem, RingElem))
        ensures
            r.0@ == comp0(self@),
            r.1@ == comp1(self@),
    {
        let mut a = [Fp::zero();D];
        let mut b = [Fp::zero();D];
        let mut i: usize = 0;
        while i < D
            invariant
                i <= D,
                forall|j: int| 0 <= j < i ==> (#[trigger] a@[j])@ == self@[j].0,
                forall|j: int| 0 <= j < i ==> (#[trigger] b@[j])@ == self@[j].1,
            decreases D - i,
        {
            a[i] = self.0[i].c0;
            b[i] = self.0[i].c1;
            i = i + 1;
        }
        let ra = RingElem::from_coeffs(a);
        let rb = RingElem::from_coeffs(b);
        assert(fp_seq(a@) =~= comp0(self@));
        assert(fp_seq(b@) =~= comp1(self@));
        (ra, rb)
    }

    /// The mixed ring product `self * rf` for `rf` in `R_F`, reduced modulo `Phi`.
    pub fn mul_rf(&self, rf: &RingElem) -> (r: RingK)
        ensures
            r@ == rk_mul_rf(self@, rf@),
    {
        let (a, b) = self.components();
        let pa = a * *rf;
        let pb = b * *rf;
        let mut c = [Ext2::zero();D];
        let mut i: usize = 0;
        while i < D
            invariant
                i <= D,
                pa@ == ring_mul(comp0(self@), rf@),
                pb@ == ring_mul(comp1(self@), rf@),
                forall|j: int| 0 <= j < i ==> (#[trigger] c@[j])@ == (pa@[j], pb@[j]),
            decreases D - i,
        {
            c[i] = Ext2::new(pa.coeff(i), pb.coeff(i));
            i = i + 1;
        }
        let r = RingK(c);
        assert(r@ =~= rk_mul_rf(self@, rf@));
        r
    }
}

/// The product of the zero polynomial with anything is zero.
proof fn lemma_ring_mul_zero_left(z: Seq<nat>, r: Seq<nat>)
    requires
        z.len() == D,
        forall|i: int| 0 <= i < D ==> #[trigger] z[i] == 0,
    ensures
        ring_mul(z, r) == crate::ring::ring_zero(),
{
    assert forall|k: int, n: int| 0 <= n <= D implies #[trigger] crate::ring::conv_sum(z, r, k, n) == 0 by {
        lemma_conv_sum_zero(z, r, k, n);
    }
    assert(ring_mul(z, r) =~= crate::ring::ring_zero());
}

proof fn lemma_conv_sum_zero(z: Seq<nat>, r: Seq<nat>, k: int, n: int)
    requires
        0 <= n <= D,
        z.len() == D,
        forall|i: int| 0 <= i < D ==> #[trigger] z[i] == 0,
    ensures
        crate::ring::conv_sum(z, r, k, n) == 0,
    decreases n,
{
    if n > 0 {
        lemma_conv_sum_zero(z, r, k, n - 1);
        assert(z[n - 1] == 0);
        assert(z[n - 1] as int * r[k - (n - 1)] as int == 0);
    }
}

/// The embedding `R_F -> R_K` is a ring homomorphism on the mixed product: embedding
/// `a` and multiplying by `b` embeds `a b`; it also preserves sums and field scaling.
pub proof fn law_rk_embedding(a: Seq<nat>, b: Seq<nat>, s: nat)
    requires
        ring_wf(a),
        ring_wf(b),
        s < crate::Q,
    ensures
        rk_mul_rf(rk_from_rf(a), b) == rk_from_rf(ring_mul(a, b)),
        rk_add(rk_from_rf(a), rk_from_rf(b)) == rk_from_rf(crate::ring::ring_add(a, b)),
        rk_scale_fp(rk_from_rf(a), s) == rk_from_rf(crate::ring::ring_scale(a, s)),
{
    let ea = rk_from_rf(a);
    assert(comp0(ea) =~= a);
    lemma_ring_mul_zero_left(comp1(ea), b);
    assert(rk_mul_rf(ea, b) =~= rk_from_rf(ring_mul(a, b)));
    assert forall|i: int| 0 <= i < D implies #[trigger] rk_add(ea, rk_from_rf(b))[i] == rk_from_rf(
        crate::ring::ring_add(a, b),
    )[i] && rk_scale_fp(ea, s)[i] == rk_from_rf(crate::ring::ring_scale(a, s))[i] by {
        lemma_fmod_small(0);
        let x = a[i] as int;
        assert(x * 0 == 0);
        assert(0 * (s as int) == 0);
        assert(0 * x == 0);
    }
    assert(rk_add(ea, rk_from_rf(b)) =~= rk_from_rf(crate::ring::ring_add(a, b)));
    assert(rk_scale_fp(ea, s) =~= rk_from_rf(crate::ring::ring_scale(a, s)));
}

/// `R_K` is an `R_F`-module under the mixed product: the unit acts trivially,
/// multiplying by `a` then by `b` is multiplying by `a b`, and the product distributes
/// over sums on either side.
pub proof fn law_rk_module(y: Seq<E2>, y2: Seq<E2>, a: Seq<nat>, b: Seq<nat>)
    requires
        rk_wf(y),
        rk_wf(y2),
        ring_wf(a),
        ring_wf(b),
    ensures
        rk_mul_rf(y, crate::ring::ring_monomial(1, 0)) == y,
        rk_mul_rf(rk_mul_rf(y, a), b) == rk_mul_rf(y, ring_mul(a, b)),
        rk_mul_rf(y, crate::ring::ring_add(a, b)) == rk_add(rk_mul_rf(y, a), rk_mul_rf(y, b)),
        rk_mul_rf(rk_add(y, y2), a) == rk_add(rk_mul_rf(y, a), rk_mul_rf(y2, a)),
{
    let p = comp0(y);
    let q = comp1(y);
    let p2 = comp0(y2);
    let q2 = comp1(y2);
    assert(ring_wf(p) && ring_wf(q) && ring_wf(p2) && ring_wf(q2));
    // unit
    crate::ring::law_ring_mul_one(p);
    crate::ring::law_ring_mul_one(q);
    assert(rk_mul_rf(y, crate::ring::ring_monomial(1, 0)) =~= y);
    // associativity
    let ya = rk_mul_rf(y, a);
    assert(comp0(ya) =~= ring_mul(p, a));
    assert(comp1(ya) =~= ring_mul(q, a));
    crate::ring::law_ring_mul_assoc(p, a, b);
    crate::ring::law_ring_mul_assoc(q, a, b);
    assert(rk_mul_rf(ya, b) =~= rk_mul_rf(y, ring_mul(a, b)));
    // distributivity over sums in R_F
    crate::ring::law_ring_mul_distrib(p, a, b);
    crate::ring::law_ring_mul_distrib(q, a, b);
    assert(rk_mul_rf(y, crate::ring::ring_add(a, b)) =~= rk_add(rk_mul_rf(y, a), rk_mul_rf(y, b)));
    // distributivity over sums in R_K
    let s = rk_add(y, y2);
    assert(comp0(s) =~= crate::ring::ring_add(p, p2));
    assert(comp1(s) =~= crate::ring::ring_add(q, q2));
    crate::ring::law_ring_mul_comm(crate::ring::ring_add(p, p2), a);
    crate::ring::law_ring_mul_comm(crate::ring::ring_add(q, q2), a);
    crate::ring::law_ring_mul_distrib(a, p, p2);
    crate::ring::law_ring_mul_distrib(a, q, q2);
    crate::ring::law_ring_mul_comm(p, a);
    crate::ring::law_ring_mul_comm(q, a);
    crate::ring::law_ring_mul_comm(p2, a);
    crate::ring::law_ring_mul_comm(q2, a);
    assert(rk_mul_rf(s, a) =~= rk_add(rk_mul_rf(y, a), rk_mul_rf(y2, a)));
}

} // verus!
