//! The cyclotomic ring `R_F = F[X]/(Phi)` with `Phi = X^54 + X^27 + 1` (the 81st
//! cyclotomic polynomial, degree `d = 54`).
//!
//! An element is viewed as its sequence of 54 coefficient residues. Products are
//! reduced with `X^54 = -X^27 - 1` and `X^81 = 1` (both hold modulo `Phi`), which
//! for the degrees `0..=106` of an unreduced product gives the closed form
//! `r_i = p_i - p_{i+54} + p_{i+81}` for `i < 27` and `r_i = p_i - p_{i+27}` otherwise.

use core::ops::{Add, Mul, Neg, Sub};

use vstd::prelude::*;

use crate::fp::{
    fadd, fmod, fmul, fneg, fp_seq, fsub, lemma_fmod_add, lemma_fmod_small, lemma_fmod_sub,
    lemma_fp_lt_q, Fp,
};
use crate::Q;

verus! {

broadcast use {lemma_fp_lt_q, lemma_fmod_small};

/// Degree of the cyclotomic ring.
pub const D: usize = 54;

/// Exponent of the middle term of `Phi`.
pub const MID: usize = 27;

/// Length of an unreduced product of two elements (`2D - 1`).
pub const PROD_LEN: usize = 107;

/// The `k`-th coefficient of the integer product of two coefficient sequences,
/// summed over the first `n` indices of the left factor.
pub open spec fn conv_sum(a: Seq<nat>, b: Seq<nat>, k: int, n: int) -> int
    decreases n,
{
    if n <= 0 {
        0
    } else {
        conv_sum(a, b, k, n - 1) + (if 0 <= k - (n - 1) < D {
            a[n - 1] * b[k - (n - 1)]
        } else {
            0
        })
    }
}

/// The `k`-th coefficient of the (unreduced) polynomial product `a * b`.
pub open spec fn conv(a: Seq<nat>, b: Seq<nat>, k: int) -> int {
    conv_sum(a, b, k, D as int)
}

/// Reduction modulo `Phi` of a polynomial of degree at most 106 with integer
/// coefficients `p(0), p(1), ...` (and `p(107) = 0`).
pub open spec fn phi_reduce(p: spec_fn(int) -> int) -> Seq<nat> {
    Seq::new(
        D as nat,
        |i: int|
            if i < 27 {
                fmod(p(i) - p(i + 54) + p(i + 81))
            } else {
                fmod(p(i) - p(i + 27))
            },
    )
}

/// The product in `R_F`.
pub open spec fn ring_mul(a: Seq<nat>, b: Seq<nat>) -> Seq<nat> {
    phi_reduce(|k: int| conv(a, b, k))
}

/// The sum in `R_F`.
pub open spec fn ring_add(a: Seq<nat>, b: Seq<nat>) -> Seq<nat> {
    Seq::new(D as nat, |i: int| fadd(a[i], b[i]))
}

/// The difference in `R_F`.
pub open spec fn ring_sub(a: Seq<nat>, b: Seq<nat>) -> Seq<nat> {
    Seq::new(D as nat, |i: int| fsub(a[i], b[i]))
}

/// The negation in `R_F`.
pub open spec fn ring_neg(a: Seq<nat>) -> Seq<nat> {
    Seq::new(D as nat, |i: int| fneg(a[i]))
}

/// Scaling by a base-field residue.
pub open spec fn ring_scale(a: Seq<nat>, s: nat) -> Seq<nat> {
    Seq::new(D as nat, |i: int| fmul(a[i], s))
}

/// The zero of `R_F`.
pub open spec fn ring_zero() -> Seq<nat> {
    Seq::new(D as nat, |i: int| 0nat)
}

/// The monomial `X^k` with integer coefficients.
pub open spec fn monomial(k: int) -> spec_fn(int) -> int {
    |j: int|
        if j == k {
            1int
        } else {
            0int
        }
}

/// The coefficients of `a * X^k` before reduction.
pub open spec fn shifted(a: Seq<nat>, k: int) -> spec_fn(int) -> int {
    |j: int|
        if k <= j < k + D {
            a[j - k] as int
        } else {
            0int
        }
}

/// A coefficient sequence of an element of `R_F`: 54 residues.
pub open spec fn ring_wf(a: Seq<nat>) -> bool {
    a.len() == D && forall|i: int| 0 <= i < D ==> #[trigger] a[i] < Q
}

/// The coefficient views of a sequence of ring elements.
pub open spec fn ring_seq(v: Seq<RingElem>) -> Seq<Seq<nat>> {
    v.map_values(|e: RingElem| e@)
}

/// `sum_{i < n} a_i * b_i` in `R_F`.
pub open spec fn ring_dot(a: Seq<Seq<nat>>, b: Seq<Seq<nat>>, n: int) -> Seq<nat>
    decreases n,
{
    if n <= 0 {
        ring_zero()
    } else {
        ring_add(ring_dot(a, b, n - 1), ring_mul(a[n - 1], b[n - 1]))
    }
}

/// Terms below `lo` vanish when `k - lo >= D`.
proof fn lemma_conv_sum_low(a: Seq<nat>, b: Seq<nat>, k: int, n: int)
    requires
        0 <= n,
        n == 0 || k - n >= D - 1,
    ensures
        conv_sum(a, b, k, n) == 0,
    decreases n,
{
    if n > 0 {
        lemma_conv_sum_low(a, b, k, n - 1);
    }
}

/// Terms at indices `>= hi` vanish when `hi > k`.
proof fn lemma_conv_sum_high(a: Seq<nat>, b: Seq<nat>, k: int, hi: int, n: int)
    requires
        0 <= hi <= n <= D,
        hi > k || hi >= D,
    ensures
        conv_sum(a, b, k, n) == conv_sum(a, b, k, hi),
    decreases n,
{
    if n > hi {
        lemma_conv_sum_high(a, b, k, hi, n - 1);
    }
}

/// An element of `R_F`, stored as its coefficient array `[c_0, ..., c_53]`.
#[derive(Clone, Copy, PartialEq, Eq, Debug)]
pub struct RingElem([Fp; D]);

impl View for RingElem {
    type V = Seq<nat>;

    closed spec fn view(&self) -> Seq<nat> {
        fp_seq(self.0@)
    }
}

/// Every ring element has 54 canonical coefficients.
pub broadcast proof fn lemma_ring_wf(a: RingElem)
    ensures
        #[trigger] ring_wf(a@),
{
}

impl RingElem {
    /// Build from a closed-form reduction of a product buffer.
    ///
    /// `prod[k]` holds `p(k) mod q` for the 107 coefficients of an unreduced product.
    fn reduce(prod: &[Fp; PROD_LEN], Ghost(p): Ghost<spec_fn(int) -> int>) -> (r: RingElem)
        requires
            forall|k: int| 0 <= k < PROD_LEN ==> (#[trigger] prod@[k])@ == fmod(p(k)),
            p(107) == 0,
        ensures
            r@ == phi_reduce(p),
    {
        let mut out = [Fp::zero();D];
        let mut i: usize = 0;
        while i < MID
            invariant
                i <= MID,
                forall|k: int| 0 <= k < PROD_LEN ==> (#[trigger] prod@[k])@ == fmod(p(k)),
                p(107) == 0,
                forall|j: int| 0 <= j < i ==> (#[trigger] out@[j])@ == phi_reduce(p)[j],
            decreases MID - i,
        {
            let d = prod[i] - prod[i + 54];
            let v = if i + 81 < PROD_LEN {
                d + prod[i + 81]
            } else {
                d
            };
            proof {
                let ii = i as int;
                lemma_fmod_sub(p(ii), p(ii + 54));
                lemma_fmod_add(p(ii) - p(ii + 54), p(ii + 81));
                lemma_fmod_add(p(ii) - p(ii + 54), 0);
            }
            out[i] = v;
            i = i + 1;
        }
        while i < D
            invariant
                MID <= i <= D,
                forall|k: int| 0 <= k < PROD_LEN ==> (#[trigger] prod@[k])@ == fmod(p(k)),
                forall|j: int| 0 <= j < i ==> (#[trigger] out@[j])@ == phi_reduce(p)[j],
            decreases D - i,
        {
            let v = prod[i] - prod[i + MID];
            proof {
                lemma_fmod_sub(p(i as int), p(i + 27));
            }
            out[i] = v;
            i = i + 1;
        }
        let r = RingElem(out);
        assert(r@ =~= phi_reduce(p));
        r
    }

    /// The zero ring element.
    pub fn zero() -> (r: RingElem)
        ensures
            r@ == ring_zero(),
    {
        let r = RingElem([Fp::zero();D]);
        assert(r@ =~= ring_zero());
        r
    }

    /// The multiplicative identity `1`.
    pub fn one() -> (r: RingElem)
        ensures
            r@ == phi_reduce(monomial(0)),
            r@ == Seq::new(D as nat, |i: int| if i == 0 { 1nat } else { 0nat }),
    {
        let mut c = [Fp::zero();D];
        c[0] = Fp::one();
        let r = RingElem(c);
        assert(r@ =~= Seq::new(D as nat, |i: int| if i == 0 { 1nat } else { 0nat }));
        assert(r@ =~= phi_reduce(monomial(0))) by {
            assert forall|i: int| 0 <= i < D implies r@[i] == phi_reduce(monomial(0))[i] by {
                lemma_fmod_small(0);
                lemma_fmod_small(1);
            }
        }
        r
    }

    /// The generator `X`.
    pub fn x() -> (r: RingElem)
        ensures
            r@ == phi_reduce(monomial(1)),
            r@ == Seq::new(D as nat, |i: int| if i == 1 { 1nat } else { 0nat }),
    {
        let mut c = [Fp::zero();D];
        c[1] = Fp::one();
        let r = RingElem(c);
        assert(r@ =~= Seq::new(D as nat, |i: int| if i == 1 { 1nat } else { 0nat }));
        assert(r@ =~= phi_reduce(monomial(1))) by {
            assert forall|i: int| 0 <= i < D implies r@[i] == phi_reduce(monomial(1))[i] by {
                lemma_fmod_small(0);
                lemma_fmod_small(1);
            }
        }
        r
    }

    /// Build from a full coefficient array.
    pub fn from_coeffs(c: [Fp; D]) -> (r: RingElem)
        ensures
            r@ == fp_seq(c@),
    {
        RingElem(c)
    }

    /// Borrow the coefficient array.
    pub fn coeffs(&self) -> (r: &[Fp; D])
        ensures
            fp_seq(r@) == self@,
    {
        &self.0
    }

    /// Consume into the coefficient array.
    pub fn into_coeffs(self) -> (r: [Fp; D])
        ensures
            fp_seq(r@) == self@,
    {
        self.0
    }

    /// The `l`-th coefficient.
    pub fn coeff(&self, l: usize) -> (r: Fp)
        requires
            l < D,
        ensures
            r@ == self@[l as int],
    {
        self.0[l]
    }

    /// The constant term `ct(a) = c_0`.
    pub fn ct(&self) -> (r: Fp)
        ensures
            r@ == self@[0],
    {
        self.0[0]
    }

    /// Whether this is the zero element.
    pub fn is_zero(&self) -> (r: bool)
        ensures
            r == (self@ == ring_zero()),
    {
        let mut i: usize = 0;
        while i < D
            invariant
                i <= D,
                forall|j: int| 0 <= j < i ==> self@[j] == 0,
            decreases D - i,
        {
            if !self.0[i].is_zero() {
                assert(self@[i as int] != ring_zero()[i as int]);
                return false;
            }
            i = i + 1;
        }
        assert(self@ =~= ring_zero());
        true
    }

    /// Equality of ring elements, decided on the coefficient residues.
    pub fn equals(&self, other: &RingElem) -> (r: bool)
        ensures
            r == (self@ == other@),
    {
        let mut i: usize = 0;
        while i < D
            invariant
                i <= D,
                forall|j: int| 0 <= j < i ==> self@[j] == other@[j],
            decreases D - i,
        {
            if !self.0[i].equals(other.0[i]) {
                assert(self@[i as int] != other@[i as int]);
                return false;
            }
            i = i + 1;
        }
        assert(self@ =~= other@);
        true
    }

    /// `X^k mod Phi` for `0 <= k <= 2D - 2`.
    pub fn x_pow_mod_phi(k: usize) -> (r: RingElem)
        requires
            k < PROD_LEN,
        ensures
            r@ == phi_reduce(monomial(k as int)),
    {
        let mut prod = [Fp::zero();PROD_LEN];
        prod[k] = Fp::one();
        proof {
            assert forall|j: int| 0 <= j < PROD_LEN implies (#[trigger] prod@[j])@ == fmod(
                monomial(k as int)(j),
            ) by {
                lemma_fmod_small(0);
                lemma_fmod_small(1);
            }
        }
        RingElem::reduce(&prod, Ghost(monomial(k as int)))
    }

    /// `self * X^k mod Phi` for `0 <= k < D`.
    pub fn mul_x_pow(&self, k: usize) -> (r: RingElem)
        requires
            k < D,
        ensures
            r@ == phi_reduce(shifted(self@, k as int)),
    {
        let mut prod = [Fp::zero();PROD_LEN];
        let mut j: usize = 0;
        while j < D
            invariant
                j <= D,
                k < D,
                forall|t: int|
                    0 <= t < PROD_LEN ==> (#[trigger] prod@[t])@ == (if k <= t < k + j {
                        self@[t - k]
                    } else {
                        0
                    }),
            decreases D - j,
        {
            prod[k + j] = self.0[j];
            j = j + 1;
        }
        proof {
            assert forall|t: int| 0 <= t < PROD_LEN implies (#[trigger] prod@[t])@ == fmod(
                shifted(self@, k as int)(t),
            ) by {
                if k <= t < k + D {
                    lemma_fmod_small(self@[t - k]);
                } else {
                    lemma_fmod_small(0);
                }
            }
        }
        RingElem::reduce(&prod, Ghost(shifted(self@, k as int)))
    }

    /// Scale by a base-field scalar.
    pub fn scale(&self, s: Fp) -> (r: RingElem)
        ensures
            r@ == ring_scale(self@, s@),
    {
        let mut out = [Fp::zero();D];
        let mut i: usize = 0;
        while i < D
            invariant
                i <= D,
                forall|j: int| 0 <= j < i ==> (#[trigger] out@[j])@ == fmul(self@[j], s@),
            decreases D - i,
        {
            out[i] = self.0[i] * s;
            i = i + 1;
        }
        let r = RingElem(out);
        assert(r@ =~= ring_scale(self@, s@));
        r
    }
}

impl Add for RingElem {
    type Output = RingElem;

    fn add(self, rhs: RingElem) -> (r: RingElem)
        ensures
            r@ == ring_add(self@, rhs@),
    {
        let mut out = [Fp::zero();D];
        let mut i: usize = 0;
        while i < D
            invariant
                i <= D,
                forall|j: int| 0 <= j < i ==> (#[trigger] out@[j])@ == fadd(self@[j], rhs@[j]),
            decreases D - i,
        {
            out[i] = self.0[i] + rhs.0[i];
            i = i + 1;
        }
        let r = RingElem(out);
        assert(r@ =~= ring_add(self@, rhs@));
        r
    }
}

impl vstd::std_specs::ops::AddSpecImpl for RingElem {
    open spec fn obeys_add_spec() -> bool {
        false
    }

    open spec fn add_req(self, rhs: RingElem) -> bool {
        true
    }

    open spec fn add_spec(self, rhs: RingElem) -> RingElem {
        self
    }
}

impl Sub for RingElem {
    type Output = RingElem;

    fn sub(self, rhs: RingElem) -> (r: RingElem)
        ensures
            r@ == ring_sub(self@, rhs@),
    {
        let mut out = [Fp::zero();D];
        let mut i: usize = 0;
        while i < D
            invariant
                i <= D,
                forall|j: int| 0 <= j < i ==> (#[trigger] out@[j])@ == fsub(self@[j], rhs@[j]),
            decreases D - i,
        {
            out[i] = self.0[i] - rhs.0[i];
            i = i + 1;
        }
        let r = RingElem(out);
        assert(r@ =~= ring_sub(self@, rhs@));
        r
    }
}

impl vstd::std_specs::ops::SubSpecImpl for RingElem {
    open spec fn obeys_sub_spec() -> bool {
        false
    }

    open spec fn sub_req(self, rhs: RingElem) -> bool {
        true
    }

    open spec fn sub_spec(self, rhs: RingElem) -> RingElem {
        self
    }
}

impl Neg for RingElem {
    type Output = RingElem;

    fn neg(self) -> (r: RingElem)
        ensures
            r@ == ring_neg(self@),
    {
        let mut out = [Fp::zero();D];
        let mut i: usize = 0;
        while i < D
            invariant
                i <= D,
                forall|j: int| 0 <= j < i ==> (#[trigger] out@[j])@ == fneg(self@[j]),
            decreases D - i,
        {
            out[i] = self.0[i].neg();
            i = i + 1;
        }
        let r = RingElem(out);
        assert(r@ =~= ring_neg(self@));
        r
    }
}

impl vstd::std_specs::ops::NegSpecImpl for RingElem {
    open spec fn obeys_neg_spec() -> bool {
        false
    }

    open spec fn neg_req(self) -> bool {
        true
    }

    open spec fn neg_spec(self) -> RingElem {
        self
    }
}

impl Mul for RingElem {
    type Output = RingElem;

    fn mul(self, rhs: RingElem) -> (r: RingElem)
        ensures
            r@ == ring_mul(self@, rhs@),
    {
        let ghost a = self@;
        let ghost b = rhs@;
        let mut prod = [Fp::zero();PROD_LEN];
        let mut k: usize = 0;
        while k < PROD_LEN
            invariant
                k <= PROD_LEN,
                a == self@,
                b == rhs@,
                forall|t: int| 0 <= t < k ==> (#[trigger] prod@[t])@ == fmod(conv(a, b, t)),
            decreases PROD_LEN - k,
        {
            let lo: usize = if k >= D {
                k - (D - 1)
            } else {
                0
            };
            let hi: usize = if k < D {
                k + 1
            } else {
                D
            };
            proof {
                lemma_conv_sum_low(a, b, k as int, lo as int);
                lemma_fmod_small(0);
            }
            let mut acc = Fp::zero();
            let mut i: usize = lo;
            while i < hi
                invariant
                    lo <= i <= hi,
                    hi <= D,
                    k < PROD_LEN,
                    lo == (if k >= D { k - (D - 1) } else { 0 }),
                    hi == (if k < D { k + 1 } else { D as int }),
                    a == self@,
                    b == rhs@,
                    acc@ == fmod(conv_sum(a, b, k as int, i as int)),
                decreases hi - i,
            {
                let t = self.0[i] * rhs.0[k - i];
                proof {
                    lemma_fmod_add(conv_sum(a, b, k as int, i as int), (a[i as int] * b[k - i]) as int);
                    lemma_fmod_small(t@);
                }
                acc = acc + t;
                i = i + 1;
            }
            proof {
                lemma_conv_sum_high(a, b, k as int, hi as int, D as int);
            }
            prod[k] = acc;
            k = k + 1;
        }
        proof {
            lemma_conv_sum_low(a, b, 107, D as int);
        }
        RingElem::reduce(&prod, Ghost(|t: int| conv(a, b, t)))
    }
}

impl vstd::std_specs::ops::MulSpecImpl for RingElem {
    open spec fn obeys_mul_spec() -> bool {
        false
    }

    open spec fn mul_req(self, rhs: RingElem) -> bool {
        true
    }

    open spec fn mul_spec(self, rhs: RingElem) -> RingElem {
        self
    }
}

/// Three sums that agree term by term modulo `q` reduce equally after combining as
/// `x - y + z`.
pub proof fn lemma_fmod_combine(x: int, y: int, z: int, x2: int, y2: int, z2: int)
    requires
        fmod(x) == fmod(x2),
        fmod(y) == fmod(y2),
        fmod(z) == fmod(z2),
    ensures
        fmod(x - y + z) == fmod(x2 - y2 + z2),
        fmod(x - y) == fmod(x2 - y2),
{
    lemma_fmod_add(x, z - y);
    lemma_fmod_add(x2, z2 - y2);
    lemma_fmod_add(z, -y);
    lemma_fmod_add(z2, -y2);
    lemma_fmod_sub(z, y);
    lemma_fmod_sub(z2, y2);
    lemma_fmod_sub(x, y);
    lemma_fmod_sub(x2, y2);
    crate::fp::lemma_fmod_fmod(x);
    crate::fp::lemma_fmod_fmod(x2);
    assert(fmod(fmod(x) as int + (z - y)) == fmod(x - y + z));
    assert(fmod(fmod(x) as int + fmod(z - y) as int) == fmod(fmod(x) as int + (z - y)));
}

/// The convolution is additive in its right factor, modulo `q`.
proof fn lemma_conv_add_right(a: Seq<nat>, b: Seq<nat>, c: Seq<nat>, k: int, n: int)
    ensures
        fmod(conv_sum(a, ring_add(b, c), k, n)) == fmod(conv_sum(a, b, k, n) + conv_sum(a, c, k, n)),
    decreases n,
{
    if n > 0 {
        lemma_conv_add_right(a, b, c, k, n - 1);
        let j = k - (n - 1);
        let prev_bc = conv_sum(a, ring_add(b, c), k, n - 1);
        let prev = conv_sum(a, b, k, n - 1) + conv_sum(a, c, k, n - 1);
        if 0 <= j < D {
            let x = a[n - 1] as int;
            let y = b[j] as int;
            let z = c[j] as int;
            crate::fp::lemma_fmod_mul(x, y + z);
            lemma_fmod_add(prev_bc, x * fmod(y + z));
            lemma_fmod_add(prev, x * (y + z));
            crate::fp::lemma_fmod_mul(x, fmod(y + z) as int);
            assert(x * (y + z) == x * y + x * z) by (nonlinear_arith);
            lemma_fmod_add(prev_bc, x * fmod(y + z) as int);
            crate::fp::lemma_fmod_fmod(prev_bc);
            assert(fmod(prev_bc + x * fmod(y + z)) == fmod(fmod(prev_bc) as int + fmod(x * fmod(y + z)) as int));
            assert(fmod(prev + x * (y + z)) == fmod(fmod(prev) as int + fmod(x * (y + z)) as int));
        }
    }
}

/// The convolution scales with its right factor, modulo `q`.
proof fn lemma_conv_scale_right(a: Seq<nat>, b: Seq<nat>, s: nat, k: int, n: int)
    ensures
        fmod(conv_sum(a, ring_scale(b, s), k, n)) == fmod(conv_sum(a, b, k, n) * s),
    decreases n,
{
    if n > 0 {
        lemma_conv_scale_right(a, b, s, k, n - 1);
        let j = k - (n - 1);
        let prev_s = conv_sum(a, ring_scale(b, s), k, n - 1);
        let prev = conv_sum(a, b, k, n - 1);
        let si = s as int;
        if 0 <= j < D {
            let x = a[n - 1] as int;
            let y = b[j] as int;
            crate::fp::lemma_fmod_mul(x, y * si);
            crate::fp::lemma_fmod_mul(x, fmod(y * si) as int);
            lemma_fmod_add(prev_s, x * fmod(y * si));
            lemma_fmod_add(prev * si, x * (y * si));
            assert((prev + x * y) * si == prev * si + x * (y * si)) by (nonlinear_arith);
            crate::fp::lemma_fmod_mul(prev, si);
            assert(fmod(prev_s + x * fmod(y * si)) == fmod(fmod(prev_s) as int + fmod(x * fmod(y * si)) as int));
            assert(fmod(prev * si + x * (y * si)) == fmod(fmod(prev * si) as int + fmod(x * (y * si)) as int));
        } else {
            assert((prev + 0) * si == prev * si);
        }
    }
}

/// Multiplication in `R_F` distributes over addition.
pub proof fn law_ring_mul_distrib(a: Seq<nat>, b: Seq<nat>, c: Seq<nat>)
    ensures
        ring_mul(a, ring_add(b, c)) == ring_add(ring_mul(a, b), ring_mul(a, c)),
{
    let pbc = |k: int| conv(a, ring_add(b, c), k);
    let pb = |k: int| conv(a, b, k);
    let pc = |k: int| conv(a, c, k);
    assert forall|i: int| 0 <= i < D implies #[trigger] ring_mul(a, ring_add(b, c))[i] == ring_add(
        ring_mul(a, b),
        ring_mul(a, c),
    )[i] by {
        lemma_conv_add_right(a, b, c, i, D as int);
        lemma_conv_add_right(a, b, c, i + 27, D as int);
        lemma_conv_add_right(a, b, c, i + 54, D as int);
        lemma_conv_add_right(a, b, c, i + 81, D as int);
        if i < 27 {
            lemma_fmod_combine(
                pbc(i),
                pbc(i + 54),
                pbc(i + 81),
                pb(i) + pc(i),
                pb(i + 54) + pc(i + 54),
                pb(i + 81) + pc(i + 81),
            );
            lemma_fmod_add(pb(i) - pb(i + 54) + pb(i + 81), pc(i) - pc(i + 54) + pc(i + 81));
        } else {
            lemma_fmod_combine(pbc(i), pbc(i + 27), 0, pb(i) + pc(i), pb(i + 27) + pc(i + 27), 0);
            lemma_fmod_add(pb(i) - pb(i + 27), pc(i) - pc(i + 27));
        }
    }
    assert(ring_mul(a, ring_add(b, c)) =~= ring_add(ring_mul(a, b), ring_mul(a, c)));
}

/// Multiplication in `R_F` commutes with scaling by a field element.
pub proof fn law_ring_mul_scale(a: Seq<nat>, b: Seq<nat>, s: nat)
    ensures
        ring_mul(a, ring_scale(b, s)) == ring_scale(ring_mul(a, b), s),
{
    let ps = |k: int| conv(a, ring_scale(b, s), k);
    let p = |k: int| conv(a, b, k);
    let si = s as int;
    assert forall|i: int| 0 <= i < D implies #[trigger] ring_mul(a, ring_scale(b, s))[i] == ring_scale(
        ring_mul(a, b),
        s,
    )[i] by {
        lemma_conv_scale_right(a, b, s, i, D as int);
        lemma_conv_scale_right(a, b, s, i + 27, D as int);
        lemma_conv_scale_right(a, b, s, i + 54, D as int);
        lemma_conv_scale_right(a, b, s, i + 81, D as int);
        if i < 27 {
            lemma_fmod_combine(ps(i), ps(i + 54), ps(i + 81), p(i) * si, p(i + 54) * si, p(i + 81) * si);
            assert(p(i) * si - p(i + 54) * si + p(i + 81) * si == (p(i) - p(i + 54) + p(i + 81)) * si)
                by (nonlinear_arith);
            crate::fp::lemma_fmod_mul(p(i) - p(i + 54) + p(i + 81), si);
        } else {
            lemma_fmod_combine(ps(i), ps(i + 27), 0, p(i) * si, p(i + 27) * si, 0);
            assert(p(i) * si - p(i + 27) * si == (p(i) - p(i + 27)) * si) by (nonlinear_arith);
            crate::fp::lemma_fmod_mul(p(i) - p(i + 27), si);
        }
    }
    assert(ring_mul(a, ring_scale(b, s)) =~= ring_scale(ring_mul(a, b), s));
}

/// Addition in `R_F` is commutative and associative with `0` neutral, and scaling
/// distributes over it.
pub proof fn law_ring_add(a: Seq<nat>, b: Seq<nat>, c: Seq<nat>, s: nat)
    requires
        ring_wf(a),
        ring_wf(b),
        ring_wf(c),
        s < Q,
    ensures
        ring_add(a, b) == ring_add(b, a),
        ring_add(ring_add(a, b), c) == ring_add(a, ring_add(b, c)),
        ring_add(a, ring_zero()) == a,
        ring_scale(ring_add(a, b), s) == ring_add(ring_scale(a, s), ring_scale(b, s)),
        ring_scale(ring_zero(), s) == ring_zero(),
{
    assert forall|i: int| 0 <= i < D implies #[trigger] ring_add(a, b)[i] == ring_add(b, a)[i] && ring_add(
        ring_add(a, b),
        c,
    )[i] == ring_add(a, ring_add(b, c))[i] && ring_add(a, ring_zero())[i] == a[i] && ring_scale(ring_add(a, b), s)[i]
        == ring_add(ring_scale(a, s), ring_scale(b, s))[i] && ring_scale(ring_zero(), s)[i] == 0 by {
        crate::fp::law_fp_field_axioms(a[i], b[i], c[i]);
        crate::fp::law_fp_field_axioms(s, a[i], b[i]);
        crate::fp::law_fp_field_axioms(fadd(a[i], b[i]), s, 0);
        crate::fp::law_fp_field_axioms(a[i], s, 0);
        crate::fp::law_fp_field_axioms(b[i], s, 0);
        assert(fmul(0, s) == 0);
    }
    assert(ring_add(a, b) =~= ring_add(b, a));
    assert(ring_add(ring_add(a, b), c) =~= ring_add(a, ring_add(b, c)));
    assert(ring_add(a, ring_zero()) =~= a);
    assert(ring_scale(ring_add(a, b), s) =~= ring_add(ring_scale(a, s), ring_scale(b, s)));
    assert(ring_scale(ring_zero(), s) =~= ring_zero());
}

/// Products, sums and inner products in `R_F` are well-formed ring elements.
pub proof fn lemma_ring_ops_wf(a: Seq<nat>, b: Seq<nat>, s: nat)
    ensures
        ring_wf(ring_mul(a, b)),
        ring_wf(ring_add(a, b)),
        ring_wf(ring_scale(a, s)),
        ring_wf(ring_zero()),
{
}

/// The entry-wise sum of two ring vectors.
pub open spec fn ring_vec_add(z1: Seq<Seq<nat>>, z2: Seq<Seq<nat>>) -> Seq<Seq<nat>> {
    Seq::new(z1.len(), |j: int| ring_add(z1[j], z2[j]))
}

/// Every entry of a ring vector scaled by a field element.
pub open spec fn ring_vec_scale(z: Seq<Seq<nat>>, s: nat) -> Seq<Seq<nat>> {
    Seq::new(z.len(), |j: int| ring_scale(z[j], s))
}

/// The inner product `sum_j a_j z_j` is additive in `z`.
pub proof fn lemma_ring_dot_add(a: Seq<Seq<nat>>, z1: Seq<Seq<nat>>, z2: Seq<Seq<nat>>, n: int)
    requires
        n <= z1.len(),
        z1.len() == z2.len(),
    ensures
        ring_dot(a, ring_vec_add(z1, z2), n) == ring_add(ring_dot(a, z1, n), ring_dot(a, z2, n)),
        ring_wf(ring_dot(a, z1, n)),
    decreases n,
{
    if n <= 0 {
        law_ring_add(ring_zero(), ring_zero(), ring_zero(), 0);
    } else {
        lemma_ring_dot_add(a, z1, z2, n - 1);
        lemma_ring_dot_add(a, z2, z1, n - 1);
        let d1 = ring_dot(a, z1, n - 1);
        let d2 = ring_dot(a, z2, n - 1);
        let m1 = ring_mul(a[n - 1], z1[n - 1]);
        let m2 = ring_mul(a[n - 1], z2[n - 1]);
        law_ring_mul_distrib(a[n - 1], z1[n - 1], z2[n - 1]);
        assert(ring_vec_add(z1, z2)[n - 1] == ring_add(z1[n - 1], z2[n - 1]));
        lemma_ring_ops_wf(a[n - 1], z1[n - 1], 0);
        lemma_ring_ops_wf(a[n - 1], z2[n - 1], 0);
        lemma_ring_ops_wf(d1, m1, 0);
        lemma_ring_ops_wf(d2, m2, 0);
        // (d1 + d2) + (m1 + m2) == (d1 + m1) + (d2 + m2)
        law_ring_add(d1, d2, ring_add(m1, m2), 0);
        law_ring_add(d2, m1, m2, 0);
        law_ring_add(m1, d2, m2, 0);
        law_ring_add(d1, m1, ring_add(d2, m2), 0);
        lemma_ring_ops_wf(d2, m2, 0);
        lemma_ring_ops_wf(m1, m2, 0);
        lemma_ring_ops_wf(d2, m1, 0);
        lemma_ring_ops_wf(m1, d2, 0);
        assert(ring_add(d2, ring_add(m1, m2)) == ring_add(ring_add(d2, m1), m2));
        assert(ring_add(d2, m1) == ring_add(m1, d2));
        assert(ring_add(ring_add(m1, d2), m2) == ring_add(m1, ring_add(d2, m2)));
    }
}

/// The inner product `sum_j a_j z_j` scales with `z`.
pub proof fn lemma_ring_dot_scale(a: Seq<Seq<nat>>, z: Seq<Seq<nat>>, s: nat, n: int)
    requires
        n <= z.len(),
        s < Q,
    ensures
        ring_dot(a, ring_vec_scale(z, s), n) == ring_scale(ring_dot(a, z, n), s),
        ring_wf(ring_dot(a, z, n)),
    decreases n,
{
    if n <= 0 {
        law_ring_add(ring_zero(), ring_zero(), ring_zero(), s);
    } else {
        lemma_ring_dot_scale(a, z, s, n - 1);
        let d = ring_dot(a, z, n - 1);
        let m = ring_mul(a[n - 1], z[n - 1]);
        law_ring_mul_scale(a[n - 1], z[n - 1], s);
        assert(ring_vec_scale(z, s)[n - 1] == ring_scale(z[n - 1], s));
        lemma_ring_ops_wf(a[n - 1], z[n - 1], s);
        law_ring_add(d, m, m, s);
        lemma_ring_ops_wf(d, m, s);
    }
}

/// `sum_{lo <= i < hi} f(i)`.
pub open spec fn range_sum(f: spec_fn(int) -> int, lo: int, hi: int) -> int
    decreases hi - lo,
{
    if hi <= lo {
        0
    } else {
        range_sum(f, lo, hi - 1) + f(hi - 1)
    }
}

/// A range sum can be peeled from the bottom.
pub proof fn lemma_range_sum_low(f: spec_fn(int) -> int, lo: int, hi: int)
    requires
        lo < hi,
    ensures
        range_sum(f, lo, hi) == f(lo) + range_sum(f, lo + 1, hi),
    decreases hi - lo,
{
    if hi - 1 > lo {
        lemma_range_sum_low(f, lo, hi - 1);
        assert(range_sum(f, lo + 1, hi) == range_sum(f, lo + 1, hi - 1) + f(hi - 1));
    } else {
        assert(range_sum(f, lo, hi - 1) == 0);
        assert(range_sum(f, lo + 1, hi) == 0);
    }
}

/// Summing `f(c - i)` over `[lo, hi)` is summing `f` over the reflected range.
pub proof fn lemma_range_sum_reflect(f: spec_fn(int) -> int, c: int, lo: int, hi: int)
    ensures
        range_sum(|i: int| f(c - i), lo, hi) == range_sum(f, c - hi + 1, c - lo + 1),
    decreases hi - lo,
{
    if hi > lo {
        lemma_range_sum_reflect(f, c, lo, hi - 1);
        lemma_range_sum_low(f, c - hi + 1, c - lo + 1);
    }
}

/// Zero terms at the bottom of a range do not count.
pub proof fn lemma_range_sum_trim_low(f: spec_fn(int) -> int, lo: int, lo2: int, hi: int)
    requires
        lo <= lo2 <= hi,
        forall|i: int| lo <= i < lo2 ==> #[trigger] f(i) == 0,
    ensures
        range_sum(f, lo, hi) == range_sum(f, lo2, hi),
    decreases lo2 - lo,
{
    if lo < lo2 {
        lemma_range_sum_low(f, lo, hi);
        lemma_range_sum_trim_low(f, lo + 1, lo2, hi);
    }
}

/// Zero terms at the top of a range do not count.
pub proof fn lemma_range_sum_trim_high(f: spec_fn(int) -> int, lo: int, hi2: int, hi: int)
    requires
        lo <= hi2 <= hi,
        forall|i: int| hi2 <= i < hi ==> #[trigger] f(i) == 0,
    ensures
        range_sum(f, lo, hi) == range_sum(f, lo, hi2),
    decreases hi - hi2,
{
    if hi2 < hi {
        lemma_range_sum_trim_high(f, lo, hi2, hi - 1);
    }
}

/// The terms of coefficient `k` of `a b`, zero outside the products of valid indices.
pub open spec fn conv_term(a: Seq<nat>, b: Seq<nat>, k: int) -> spec_fn(int) -> int {
    |i: int| if 0 <= i < D && 0 <= k - i < D { a[i] as int * b[k - i] as int } else { 0int }
}

/// The convolution prefix as a range sum of its terms.
pub proof fn lemma_conv_sum_range(a: Seq<nat>, b: Seq<nat>, k: int, n: int)
    requires
        0 <= n <= D,
    ensures
        conv_sum(a, b, k, n) == range_sum(conv_term(a, b, k), 0, n),
    decreases n,
{
    if n > 0 {
        lemma_conv_sum_range(a, b, k, n - 1);
    }
}

/// The coefficients of a product do not depend on the order of the factors.
proof fn lemma_conv_comm(a: Seq<nat>, b: Seq<nat>, k: int)
    ensures
        conv(a, b, k) == conv(b, a, k),
{
    let f = conv_term(a, b, k);
    let g = conv_term(b, a, k);
    lemma_conv_sum_range(a, b, k, D as int);
    lemma_conv_sum_range(b, a, k, D as int);
    assert forall|j: int| #[trigger] g(j) == f(k - j) by {
        if 0 <= j < D && 0 <= k - j < D {
            assert(b[j] as int * a[k - j] as int == a[k - j] as int * b[j] as int) by (nonlinear_arith);
        }
    }
    let h = |j: int| f(k - j);
    assert(g =~= h);
    lemma_range_sum_reflect(f, k, 0, D as int);
    // Both ranges agree with f's support [max(0, k - 53), min(54, k + 1)).
    let lo = if k - (D as int) + 1 > 0 { k - (D as int) + 1 } else { 0 };
    let hi = if k + 1 < D { k + 1 } else { D as int };
    if lo < hi {
        lemma_range_sum_trim_low(f, 0, lo, D as int);
        lemma_range_sum_trim_high(f, lo, hi, D as int);
        lemma_range_sum_trim_low(f, k - (D as int) + 1, lo, k + 1);
        lemma_range_sum_trim_high(f, lo, hi, k + 1);
    } else {
        if 0 <= D {
            lemma_range_sum_trim_low(f, 0, D as int, D as int);
        }
        if k - (D as int) + 1 <= k + 1 {
            lemma_range_sum_trim_low(f, k - (D as int) + 1, k + 1, k + 1);
        }
    }
}

/// Multiplication in `R_F` is commutative.
pub proof fn law_ring_mul_comm(a: Seq<nat>, b: Seq<nat>)
    ensures
        ring_mul(a, b) == ring_mul(b, a),
{
    assert forall|i: int| 0 <= i < D implies #[trigger] ring_mul(a, b)[i] == ring_mul(b, a)[i] by {
        lemma_conv_comm(a, b, i);
        lemma_conv_comm(a, b, i + 27);
        lemma_conv_comm(a, b, i + 54);
        lemma_conv_comm(a, b, i + 81);
    }
    assert(ring_mul(a, b) =~= ring_mul(b, a));
}

/// A range sum splits at any midpoint.
pub proof fn lemma_range_sum_split(f: spec_fn(int) -> int, lo: int, mid: int, hi: int)
    requires
        lo <= mid <= hi,
    ensures
        range_sum(f, lo, hi) == range_sum(f, lo, mid) + range_sum(f, mid, hi),
    decreases hi - mid,
{
    if hi > mid {
        lemma_range_sum_split(f, lo, mid, hi - 1);
    }
}

/// Shifting the summand shifts the range.
pub proof fn lemma_range_sum_shift(f: spec_fn(int) -> int, c: int, lo: int, hi: int)
    ensures
        range_sum(|i: int| f(i - c), lo, hi) == range_sum(f, lo - c, hi - c),
    decreases hi - lo,
{
    if hi > lo {
        lemma_range_sum_shift(f, c, lo, hi - 1);
    }
}

/// Range sums agree when their summands agree on the range.
pub proof fn lemma_range_sum_ext(f: spec_fn(int) -> int, g: spec_fn(int) -> int, lo: int, hi: int)
    requires
        forall|i: int| lo <= i < hi ==> #[trigger] f(i) == g(i),
    ensures
        range_sum(f, lo, hi) == range_sum(g, lo, hi),
    decreases hi - lo,
{
    if hi > lo {
        lemma_range_sum_ext(f, g, lo, hi - 1);
    }
}

/// The range sum of a sum is the sum of the range sums.
pub proof fn lemma_range_sum_add(f: spec_fn(int) -> int, g: spec_fn(int) -> int, lo: int, hi: int)
    ensures
        range_sum(|i: int| f(i) + g(i), lo, hi) == range_sum(f, lo, hi) + range_sum(g, lo, hi),
    decreases hi - lo,
{
    if hi > lo {
        lemma_range_sum_add(f, g, lo, hi - 1);
    }
}

/// Range sums agree modulo `q` when their summands do.
pub proof fn lemma_range_sum_congruent(f: spec_fn(int) -> int, g: spec_fn(int) -> int, lo: int, hi: int)
    requires
        forall|i: int| lo <= i < hi ==> #[trigger] fmod(f(i)) == fmod(g(i)),
    ensures
        fmod(range_sum(f, lo, hi)) == fmod(range_sum(g, lo, hi)),
    decreases hi - lo,
{
    if hi > lo {
        lemma_range_sum_congruent(f, g, lo, hi - 1);
        let (x, y) = (range_sum(f, lo, hi - 1), f(hi - 1));
        let (x2, y2) = (range_sum(g, lo, hi - 1), g(hi - 1));
        lemma_fmod_add(x, y);
        lemma_fmod_add(x2, y2);
    }
}

/// `c X^k` as an element of `R_F`, for `k < 54`.
pub open spec fn ring_monomial(c: nat, k: int) -> Seq<nat> {
    Seq::new(D as nat, |i: int| if i == k { c } else { 0nat })
}

/// A product with `c X^k` has the coefficients of `a` shifted by `k` and scaled by `c`.
proof fn lemma_conv_monomial(a: Seq<nat>, c: nat, k: int, j: int)
    requires
        0 <= k < D,
    ensures
        conv(a, ring_monomial(c, k), j) == (shifted(a, k))(j) * c,
{
    let e = ring_monomial(c, k);
    let f = conv_term(a, e, j);
    lemma_conv_sum_range(a, e, j, D as int);
    let i0 = j - k;
    assert forall|i: int| 0 <= i < D && i != i0 implies #[trigger] f(i) == 0 by {
        if 0 <= j - i < D {
            assert(e[j - i] == 0);
        }
    }
    if 0 <= i0 < D {
        lemma_range_sum_trim_low(f, 0, i0, D as int);
        lemma_range_sum_trim_high(f, i0, i0 + 1, D as int);
        assert(range_sum(f, i0, i0) == 0);
        assert(range_sum(f, i0, i0 + 1) == f(i0));
        assert(e[k] == c);
    } else {
        lemma_range_sum_trim_low(f, 0, D as int, D as int);
        assert(range_sum(f, D as int, D as int) == 0);
    }
}

/// Multiplying by `X^k` shifts the coefficients (with reduction), and multiplying by a
/// constant `c` scales them by `c`.
pub proof fn law_ring_mul_monomial(a: Seq<nat>, k: int, c: nat)
    requires
        ring_wf(a),
        0 <= k < D,
        c < Q,
    ensures
        ring_mul(a, ring_monomial(1, k)) == phi_reduce(shifted(a, k)),
        ring_mul(a, ring_monomial(c, 0)) == ring_scale(a, c),
        phi_reduce(monomial(k)) == ring_monomial(1, k),
{
    let p1 = |j: int| conv(a, ring_monomial(1, k), j);
    assert forall|j: int| #[trigger] p1(j) == (shifted(a, k))(j) by {
        lemma_conv_monomial(a, 1, k, j);
    }
    assert(p1 =~= shifted(a, k));
    let pc = |j: int| conv(a, ring_monomial(c, 0), j);
    assert forall|i: int| 0 <= i < D implies #[trigger] ring_mul(a, ring_monomial(c, 0))[i] == ring_scale(a, c)[i] by {
        lemma_conv_monomial(a, c, 0, i);
        lemma_conv_monomial(a, c, 0, i + 27);
        lemma_conv_monomial(a, c, 0, i + 54);
        lemma_conv_monomial(a, c, 0, i + 81);
        assert((shifted(a, 0))(i) == a[i] as int);
        assert(0int * c == 0);
    }
    assert(ring_mul(a, ring_monomial(c, 0)) =~= ring_scale(a, c));
    assert(phi_reduce(monomial(k)) =~= ring_monomial(1, k));
}

/// `b X` in `R_F`: coefficients move up one degree, and `X^54 = -X^27 - 1` folds the
/// top coefficient back into degrees 0 and 27.
pub open spec fn ring_mul_x(b: Seq<nat>) -> Seq<nat> {
    Seq::new(
        D as nat,
        |i: int|
            if i == 0 {
                fneg(b[53])
            } else if i == 27 {
                fsub(b[26], b[53])
            } else {
                b[i - 1]
            },
    )
}

/// Coefficient `j` of `a`, counting only the first `n` coefficients.
pub open spec fn coeff_below(a: Seq<nat>, j: int, n: int) -> int {
    if 0 <= j < n {
        a[j] as int
    } else {
        0
    }
}

/// A convolution coefficient outside the degrees `0..=106` of a product is zero.
proof fn lemma_conv_outside(a: Seq<nat>, b: Seq<nat>, k: int, n: int)
    requires
        n <= D,
        k < 0 || k >= 2 * D - 1,
    ensures
        conv_sum(a, b, k, n) == 0,
    decreases n,
{
    if n > 0 {
        lemma_conv_outside(a, b, k, n - 1);
    }
}

/// The convolution against `b X` is the convolution against `b` one degree lower, less
/// the folded top coefficient of `b` wherever `X^54 = -X^27 - 1` puts it.
proof fn lemma_conv_mul_x(a: Seq<nat>, b: Seq<nat>, k: int, n: int)
    requires
        ring_wf(b),
        n <= D,
    ensures
        fmod(conv_sum(a, ring_mul_x(b), k, n)) == fmod(
            conv_sum(a, b, k - 1, n) - b[53] * (coeff_below(a, k, n) + coeff_below(a, k - 27, n) + coeff_below(
                a,
                k - 54,
                n,
            )),
        ),
    decreases n,
{
    let m = b[53] as int;
    if n <= 0 {
        assert(m * (0int + 0 + 0) == 0);
    } else {
        lemma_conv_mul_x(a, b, k, n - 1);
        let i = n - 1;
        let j = k - i;
        let x = a[i] as int;
        let p1 = conv_sum(a, ring_mul_x(b), k, n - 1);
        let p0 = conv_sum(a, b, k - 1, n - 1);
        let l0 = coeff_below(a, k, n - 1) + coeff_below(a, k - 27, n - 1) + coeff_below(a, k - 54, n - 1);
        let t1 = conv_sum(a, ring_mul_x(b), k, n) - p1;
        let t0 = conv_sum(a, b, k - 1, n) - p0;
        let e: int = if j == 0 || j == 27 || j == 54 {
            x
        } else {
            0
        };
        assert(coeff_below(a, k, n) + coeff_below(a, k - 27, n) + coeff_below(a, k - 54, n) == l0 + e);
        assert(fmod(t1) == fmod(t0 - m * e)) by {
            if j == 0 {
                crate::fp::lemma_fmod_mul(x, -m);
                assert(t1 == x * fneg(b[53]));
                assert(t0 == 0);
                assert(x * (-m) == 0 - m * x) by (nonlinear_arith);
            } else if j == 27 {
                let y = b[26] as int;
                crate::fp::lemma_fmod_mul(x, y - m);
                assert(t1 == x * fsub(b[26], b[53]));
                assert(t0 == x * y);
                assert(x * (y - m) == x * y - m * x) by (nonlinear_arith);
            } else if 0 < j < D {
                assert(ring_mul_x(b)[j] == b[j - 1]);
                assert(t1 == t0);
                assert(m * 0 == 0);
            } else if j == 54 {
                assert(t1 == 0);
                assert(t0 == x * m);
                assert(x * m - m * x == 0) by (nonlinear_arith);
            } else {
                assert(t1 == 0);
                assert(t0 == 0);
                assert(m * 0 == 0);
            }
        }
        lemma_fmod_add(p1, t1);
        lemma_fmod_add(p0 - m * l0, t0 - m * e);
        crate::fp::lemma_fmod_fmod(p1);
        assert(fmod(p1 + t1) == fmod(fmod(p1) as int + fmod(t1) as int));
        assert(fmod(p0 - m * l0 + (t0 - m * e)) == fmod(fmod(p0 - m * l0) as int + fmod(t0 - m * e) as int));
        assert(p0 - m * l0 + (t0 - m * e) == (p0 + t0) - m * (l0 + e)) by (nonlinear_arith);
    }
}

/// Multiplying by `X` commutes with multiplying by `a`: `a (b X) = (a b) X`.
pub proof fn lemma_ring_mul_x_commutes(a: Seq<nat>, b: Seq<nat>)
    requires
        ring_wf(a),
        ring_wf(b),
    ensures
        ring_mul(a, ring_mul_x(b)) == ring_mul_x(ring_mul(a, b)),
{
    let c = ring_mul(a, b);
    let bx = ring_mul_x(b);
    let m = b[53] as int;
    let p = |k: int| conv(a, b, k);
    let p1 = |k: int| conv(a, bx, k);
    let sh = |k: int| coeff_below(a, k, 54) + coeff_below(a, k - 27, 54) + coeff_below(a, k - 54, 54);
    let xk = |k: int| p(k - 1) - m * sh(k);
    lemma_conv_outside(a, b, -1, 54);
    lemma_conv_outside(a, b, 107, 54);
    assert forall|i: int| 0 <= i < D implies #[trigger] ring_mul(a, bx)[i] == ring_mul_x(c)[i] by {
        lemma_conv_mul_x(a, b, i, 54);
        lemma_conv_mul_x(a, b, i + 27, 54);
        lemma_conv_mul_x(a, b, i + 54, 54);
        lemma_conv_mul_x(a, b, i + 81, 54);
        if i < 27 {
            lemma_fmod_combine(p1(i), p1(i + 54), p1(i + 81), xk(i), xk(i + 54), xk(i + 81));
            let (s0, s1, s2) = (sh(i), sh(i + 54), sh(i + 81));
            assert(s0 - s1 + s2 == 0);
            assert(m * s0 - m * s1 + m * s2 == 0) by (nonlinear_arith)
                requires
                    s0 - s1 + s2 == 0,
            ;
            assert(xk(i) - xk(i + 54) + xk(i + 81) == p(i - 1) - p(i + 53) + p(i + 80));
            if i == 0 {
                crate::fp::lemma_fmod_neg(p(53) - p(80));
                assert(ring_mul_x(c)[0] == fneg(c[53]));
                assert(c[53] == fmod(p(53) - p(80)));
                assert(-(p(53) - p(80)) == p(-1) - p(53) + p(80));
            } else {
                assert(ring_mul_x(c)[i] == c[i - 1]);
            }
        } else {
            lemma_fmod_combine(p1(i), p1(i + 27), 0, xk(i), xk(i + 27), 0);
            let (s0, s1) = (sh(i), sh(i + 27));
            assert(s0 == s1);
            assert(xk(i) - xk(i + 27) == p(i - 1) - p(i + 26));
            if i == 27 {
                assert(ring_mul_x(c)[27] == fsub(c[26], c[53]));
                lemma_fmod_sub(p(26) - p(80) + p(107), p(53) - p(80));
            } else {
                assert(ring_mul_x(c)[i] == c[i - 1]);
            }
        }
    }
    assert(ring_mul(a, bx) =~= ring_mul_x(c));
}

/// `b X^m`, as `m` successive multiplications by `X`.
pub open spec fn ring_mul_x_pow(b: Seq<nat>, m: nat) -> Seq<nat>
    decreases m,
{
    if m == 0 {
        b
    } else {
        ring_mul_x(ring_mul_x_pow(b, (m - 1) as nat))
    }
}

/// Multiplying by `X` keeps an element well formed.
pub proof fn lemma_ring_mul_x_pow_wf(b: Seq<nat>, m: nat)
    requires
        ring_wf(b),
    ensures
        ring_wf(ring_mul_x_pow(b, m)),
    decreases m,
{
    if m > 0 {
        lemma_ring_mul_x_pow_wf(b, (m - 1) as nat);
    }
}

/// Multiplying by `X` moves every coefficient up one degree and folds the top one back
/// with `X^54 = -X^27 - 1`.
pub proof fn law_ring_mul_by_x(p: Seq<nat>)
    requires
        ring_wf(p),
    ensures
        ring_mul(p, ring_monomial(1, 1)) == ring_mul_x(p),
{
    law_ring_mul_monomial(p, 1, 1);
    let sh = shifted(p, 1);
    assert forall|i: int| 0 <= i < D implies #[trigger] phi_reduce(sh)[i] == ring_mul_x(p)[i] by {
        if i == 0 {
            assert(sh(0) - sh(54) + sh(81) == -(p[53] as int));
        } else if i < 27 {
            assert(sh(i) - sh(i + 54) + sh(i + 81) == p[i - 1] as int);
        } else if i == 27 {
            assert(sh(27) - sh(54) == p[26] - p[53]);
        } else {
            assert(sh(i) - sh(i + 27) == p[i - 1] as int);
        }
    }
    assert(phi_reduce(sh) =~= ring_mul_x(p));
}

/// The product with `X^m` is `m` successive multiplications by `X`.
pub proof fn lemma_ring_mul_monomial_pow(p: Seq<nat>, m: nat)
    requires
        ring_wf(p),
        m < D,
    ensures
        ring_mul(p, ring_monomial(1, m as int)) == ring_mul_x_pow(p, m),
    decreases m,
{
    if m == 0 {
        law_ring_mul_monomial(p, 0, 1);
        assert forall|i: int| 0 <= i < D implies #[trigger] ring_scale(p, 1)[i] == p[i] by {}
        assert(ring_scale(p, 1) =~= p);
    } else {
        let prev = ring_monomial(1, m - 1);
        lemma_ring_mul_monomial_pow(p, (m - 1) as nat);
        lemma_ring_mul_x_commutes(p, prev);
        assert forall|i: int| 0 <= i < D implies #[trigger] ring_mul_x(prev)[i] == ring_monomial(1, m as int)[i] by {
            if i == 0 {
                assert(fmod(-0int) == 0);
            } else if i == 27 {
                assert(fsub(prev[26], prev[53]) == prev[26]);
            }
        }
        assert(ring_mul_x(prev) =~= ring_monomial(1, m as int));
    }
}

/// `(a b) X^m = a (b X^m)`.
proof fn lemma_ring_mul_assoc_monomial(a: Seq<nat>, b: Seq<nat>, m: nat)
    requires
        ring_wf(a),
        ring_wf(b),
        m < D,
    ensures
        ring_mul(ring_mul(a, b), ring_monomial(1, m as int)) == ring_mul(a, ring_mul(b, ring_monomial(1, m as int))),
{
    lemma_ring_ops_wf(a, b, 0);
    lemma_ring_mul_monomial_pow(ring_mul(a, b), m);
    lemma_ring_mul_monomial_pow(b, m);
    lemma_ring_mul_x_pow_commutes(a, b, m);
}

/// `(a b) X^m = a (b X^m)`, with `X^m` as repeated multiplication by `X`.
proof fn lemma_ring_mul_x_pow_commutes(a: Seq<nat>, b: Seq<nat>, m: nat)
    requires
        ring_wf(a),
        ring_wf(b),
    ensures
        ring_mul_x_pow(ring_mul(a, b), m) == ring_mul(a, ring_mul_x_pow(b, m)),
    decreases m,
{
    if m > 0 {
        lemma_ring_mul_x_pow_commutes(a, b, (m - 1) as nat);
        lemma_ring_mul_x_pow_wf(b, (m - 1) as nat);
        lemma_ring_mul_x_commutes(a, ring_mul_x_pow(b, (m - 1) as nat));
    }
}

/// `sum_{m < n} c_m X^m`: the first `n` coefficients of `c` as a ring element.
pub open spec fn monomial_sum(c: Seq<nat>, n: int) -> Seq<nat>
    decreases n,
{
    if n <= 0 {
        ring_zero()
    } else {
        ring_add(monomial_sum(c, n - 1), ring_monomial(c[n - 1], n - 1))
    }
}

/// The monomial sum keeps the first `n` coefficients and zeroes the rest.
pub proof fn lemma_monomial_sum(c: Seq<nat>, n: int)
    requires
        ring_wf(c),
        0 <= n <= D,
    ensures
        forall|i: int| 0 <= i < D ==> #[trigger] monomial_sum(c, n)[i] == if i < n { c[i] } else { 0nat },
        monomial_sum(c, n).len() == D,
    decreases n,
{
    if n > 0 {
        lemma_monomial_sum(c, n - 1);
    }
}

/// The product with zero is zero.
pub proof fn lemma_ring_mul_zero(x: Seq<nat>)
    ensures
        ring_mul(x, ring_zero()) == ring_zero(),
{
    law_ring_mul_scale(x, ring_zero(), 0);
    assert(ring_scale(ring_zero(), 0) =~= ring_zero());
    assert(ring_scale(ring_mul(x, ring_zero()), 0) =~= ring_zero());
}

/// Multiplication in `R_F` is associative: `(a b) c = a (b c)`.
pub proof fn law_ring_mul_assoc(a: Seq<nat>, b: Seq<nat>, c: Seq<nat>)
    requires
        ring_wf(a),
        ring_wf(b),
        ring_wf(c),
    ensures
        ring_mul(ring_mul(a, b), c) == ring_mul(a, ring_mul(b, c)),
{
    lemma_ring_mul_assoc_prefix(a, b, c, D as int);
    lemma_monomial_sum(c, D as int);
    assert(monomial_sum(c, D as int) =~= c);
}

/// Associativity against the first `n` monomials of `c`.
proof fn lemma_ring_mul_assoc_prefix(a: Seq<nat>, b: Seq<nat>, c: Seq<nat>, n: int)
    requires
        ring_wf(a),
        ring_wf(b),
        ring_wf(c),
        0 <= n <= D,
    ensures
        ring_mul(ring_mul(a, b), monomial_sum(c, n)) == ring_mul(a, ring_mul(b, monomial_sum(c, n))),
    decreases n,
{
    let ab = ring_mul(a, b);
    if n == 0 {
        lemma_ring_mul_zero(ab);
        lemma_ring_mul_zero(b);
        lemma_ring_mul_zero(a);
    } else {
        lemma_ring_mul_assoc_prefix(a, b, c, n - 1);
        let s = monomial_sum(c, n - 1);
        let cm = c[n - 1];
        let x = ring_monomial(1, n - 1);
        let mono = ring_monomial(cm, n - 1);
        assert(ring_scale(x, cm) =~= mono);
        law_ring_mul_distrib(ab, s, mono);
        law_ring_mul_distrib(b, s, mono);
        law_ring_mul_distrib(a, ring_mul(b, s), ring_mul(b, mono));
        law_ring_mul_scale(ab, x, cm);
        law_ring_mul_scale(b, x, cm);
        law_ring_mul_scale(a, ring_mul(b, x), cm);
        lemma_ring_mul_assoc_monomial(a, b, (n - 1) as nat);
    }
}

/// Every entry of a ring vector multiplied by the ring element `rho`.
pub open spec fn ring_vec_mul(z: Seq<Seq<nat>>, rho: Seq<nat>) -> Seq<Seq<nat>> {
    Seq::new(z.len(), |j: int| ring_mul(z[j], rho))
}

/// The inner product `sum_j a_j z_j` commutes with multiplying `z` by a ring element.
pub proof fn lemma_ring_dot_mul(a: Seq<Seq<nat>>, z: Seq<Seq<nat>>, rho: Seq<nat>, n: int)
    requires
        n <= z.len(),
        n <= a.len(),
        forall|j: int| 0 <= j < n ==> ring_wf(#[trigger] a[j]) && ring_wf(z[j]),
        ring_wf(rho),
    ensures
        ring_dot(a, ring_vec_mul(z, rho), n) == ring_mul(ring_dot(a, z, n), rho),
    decreases n,
{
    if n <= 0 {
        lemma_ring_mul_zero(rho);
        law_ring_mul_comm(ring_zero(), rho);
    } else {
        lemma_ring_dot_mul(a, z, rho, n - 1);
        let d = ring_dot(a, z, n - 1);
        let x = a[n - 1];
        let y = z[n - 1];
        assert(ring_wf(a[n - 1]));
        law_ring_mul_assoc(x, y, rho);
        law_ring_mul_distrib(rho, d, ring_mul(x, y));
        law_ring_mul_comm(rho, ring_add(d, ring_mul(x, y)));
        law_ring_mul_comm(rho, d);
        law_ring_mul_comm(rho, ring_mul(x, y));
    }
}

/// The constant `1` is a multiplicative identity in `R_F`.
pub proof fn law_ring_mul_one(a: Seq<nat>)
    requires
        ring_wf(a),
    ensures
        ring_mul(a, ring_monomial(1, 0)) == a,
{
    lemma_ring_mul_monomial_pow(a, 0);
}

} // verus!
