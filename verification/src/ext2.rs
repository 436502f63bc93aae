//! The degree-2 extension `K = F_q[u]/(u^2 - 7)`.
//!
//! An element `c0 + c1 u` is viewed as the pair of residues `(c0, c1)`.

use core::ops::{Add, Mul, Neg, Sub};

use vstd::arithmetic::power::*;
use vstd::prelude::*;

use crate::error::FieldError;
use crate::fp::{
    fadd, fmod, fmul, fneg, fpow, fsub, law_fp_field_axioms, lemma_fmod_add, lemma_fmod_mul, lemma_fmod_neg,
    lemma_fmod_small, lemma_fmod_sub,
    lemma_fp_lt_q, Fp,
};
use crate::Q;

verus! {

broadcast use {lemma_fp_lt_q, lemma_fmod_small};

/// A pair of residues: the view of an extension element.
pub type E2 = (nat, nat);

/// Both coordinates are residues below `q`.
pub open spec fn e2_canon(a: E2) -> bool {
    a.0 < Q && a.1 < Q
}

/// The zero of `K`.
pub open spec fn e2_zero() -> E2 {
    (0, 0)
}

/// The unit of `K`.
pub open spec fn e2_one() -> E2 {
    (1, 0)
}

/// The embedding of a base-field residue.
pub open spec fn e2_base(a: nat) -> E2 {
    (a, 0)
}

/// Addition in `K`.
pub open spec fn e2_add(a: E2, b: E2) -> E2 {
    (fadd(a.0, b.0), fadd(a.1, b.1))
}

/// Subtraction in `K`.
pub open spec fn e2_sub(a: E2, b: E2) -> E2 {
    (fsub(a.0, b.0), fsub(a.1, b.1))
}

/// Negation in `K`.
pub open spec fn e2_neg(a: E2) -> E2 {
    (fneg(a.0), fneg(a.1))
}

/// Multiplication in `K`: `(a + b u)(c + d u) = (ac + 7 bd) + (ad + bc) u`.
pub open spec fn e2_mul(a: E2, b: E2) -> E2 {
    (fmod((a.0 * b.0 + 7 * (a.1 * b.1)) as int), fmod((a.0 * b.1 + a.1 * b.0) as int))
}

/// Scaling by a base-field residue.
pub open spec fn e2_scale(a: E2, s: nat) -> E2 {
    (fmul(a.0, s), fmul(a.1, s))
}

/// The Frobenius conjugate `c0 - c1 u`.
pub open spec fn e2_conj(a: E2) -> E2 {
    (a.0, fneg(a.1))
}

/// The field norm `c0^2 - 7 c1^2`.
pub open spec fn e2_norm(a: E2) -> nat {
    fmod(a.0 * a.0 - 7 * (a.1 * a.1))
}

/// `a^e` in `K`.
pub open spec fn e2_pow(a: E2, e: nat) -> E2
    decreases e,
{
    if e == 0 {
        e2_one()
    } else {
        e2_mul(e2_pow(a, (e - 1) as nat), a)
    }
}

/// The residue pairs of a sequence of extension elements.
pub open spec fn e2_seq(s: Seq<Ext2>) -> Seq<E2> {
    s.map_values(|e: Ext2| e@)
}

/// Multiplication in `K` is commutative.
pub proof fn lemma_e2_mul_comm(a: E2, b: E2)
    ensures
        e2_mul(a, b) == e2_mul(b, a),
{
    assert(a.0 * b.0 == b.0 * a.0) by (nonlinear_arith);
    assert(a.1 * b.1 == b.1 * a.1) by (nonlinear_arith);
    assert(a.0 * b.1 == b.1 * a.0) by (nonlinear_arith);
    assert(a.1 * b.0 == b.0 * a.1) by (nonlinear_arith);
}

/// Multiplication in `K` is associative.
pub proof fn lemma_e2_mul_assoc(a: E2, b: E2, c: E2)
    ensures
        e2_mul(e2_mul(a, b), c) == e2_mul(a, e2_mul(b, c)),
{
    let (a0, a1, b0, b1, c0, c1) = (a.0 as int, a.1 as int, b.0 as int, b.1 as int, c.0 as int, c.1 as int);
    let ab0 = a0 * b0 + 7 * (a1 * b1);
    let ab1 = a0 * b1 + a1 * b0;
    let bc0 = b0 * c0 + 7 * (b1 * c1);
    let bc1 = b0 * c1 + b1 * c0;
    // left: (ab0 c0 + 7 ab1 c1, ab0 c1 + ab1 c0)
    lemma_fmod_mul(ab0, c0);
    lemma_fmod_mul(ab1, c1);
    lemma_fmod_mul(ab0, c1);
    lemma_fmod_mul(ab1, c0);
    lemma_fmod_mul(a0, bc0);
    lemma_fmod_mul(a1, bc1);
    lemma_fmod_mul(a0, bc1);
    lemma_fmod_mul(a1, bc0);
    lemma_fmod_mul(7, fmod(ab1) * c1);
    lemma_fmod_mul(7, ab1 * c1);
    lemma_fmod_mul(7, a1 * fmod(bc1));
    lemma_fmod_mul(7, a1 * bc1);
    lemma_fmod_add(fmod(ab0) * c0, 7 * (fmod(ab1) * c1));
    lemma_fmod_add(ab0 * c0, 7 * (fmod(ab1) * c1));
    lemma_fmod_add(ab0 * c0, 7 * (ab1 * c1));
    lemma_fmod_add(fmod(ab0 * c0) as int, fmod(7 * (ab1 * c1)) as int);
    lemma_fmod_add(a0 * fmod(bc0), 7 * (a1 * fmod(bc1)));
    lemma_fmod_add(a0 * bc0, 7 * (a1 * fmod(bc1)));
    lemma_fmod_add(a0 * bc0, 7 * (a1 * bc1));
    lemma_fmod_add(fmod(ab0) * c1, fmod(ab1) * c0);
    lemma_fmod_add(ab0 * c1, fmod(ab1) * c0);
    lemma_fmod_add(ab0 * c1, ab1 * c0);
    lemma_fmod_add(a0 * fmod(bc1), a1 * fmod(bc0));
    lemma_fmod_add(a0 * bc1, a1 * fmod(bc0));
    lemma_fmod_add(a0 * bc1, a1 * bc0);
    lemma_e2_assoc_poly(a0, a1, b0, b1, c0, c1);
    lemma_e2_mod_mul_inner(ab1, c1);
    lemma_e2_mod_mul_inner2(a1, bc1);
    lemma_e2_mod_add_inner(ab0, c0, ab1, c1);
    lemma_e2_mod_add_inner2(a0, bc0, a1, bc1);
    lemma_e2_mod_add_inner3(ab0, c1, ab1, c0);
    lemma_e2_mod_add_inner4(a0, bc1, a1, bc0);
}

proof fn lemma_e2_mod_mul_inner(x: int, y: int)
    ensures
        fmod(7 * (fmod(x) * y)) == fmod(7 * (x * y)),
{
    lemma_fmod_mul(x, y);
    lemma_fmod_mul(7, fmod(x) * y);
    lemma_fmod_mul(7, x * y);
}

proof fn lemma_e2_mod_mul_inner2(x: int, y: int)
    ensures
        fmod(7 * (x * fmod(y))) == fmod(7 * (x * y)),
{
    lemma_fmod_mul(x, y);
    lemma_fmod_mul(7, x * fmod(y));
    lemma_fmod_mul(7, x * y);
}

proof fn lemma_e2_mod_add_inner(p: int, c0: int, r: int, c1: int)
    ensures
        fmod(fmod(p) * c0 + 7 * (fmod(r) * c1)) == fmod(p * c0 + 7 * (r * c1)),
{
    lemma_fmod_mul(p, c0);
    lemma_e2_mod_mul_inner(r, c1);
    lemma_fmod_add(fmod(p) * c0, 7 * (fmod(r) * c1));
    lemma_fmod_add(p * c0, 7 * (r * c1));
}

proof fn lemma_e2_mod_add_inner2(a0: int, p: int, a1: int, r: int)
    ensures
        fmod(a0 * fmod(p) + 7 * (a1 * fmod(r))) == fmod(a0 * p + 7 * (a1 * r)),
{
    lemma_fmod_mul(a0, p);
    lemma_e2_mod_mul_inner2(a1, r);
    lemma_fmod_add(a0 * fmod(p), 7 * (a1 * fmod(r)));
    lemma_fmod_add(a0 * p, 7 * (a1 * r));
}

proof fn lemma_e2_mod_add_inner3(p: int, c1: int, r: int, c0: int)
    ensures
        fmod(fmod(p) * c1 + fmod(r) * c0) == fmod(p * c1 + r * c0),
{
    lemma_fmod_mul(p, c1);
    lemma_fmod_mul(r, c0);
    lemma_fmod_add(fmod(p) * c1, fmod(r) * c0);
    lemma_fmod_add(p * c1, r * c0);
}

proof fn lemma_e2_mod_add_inner4(a0: int, p: int, a1: int, r: int)
    ensures
        fmod(a0 * fmod(p) + a1 * fmod(r)) == fmod(a0 * p + a1 * r),
{
    lemma_fmod_mul(a0, p);
    lemma_fmod_mul(a1, r);
    lemma_fmod_add(a0 * fmod(p), a1 * fmod(r));
    lemma_fmod_add(a0 * p, a1 * r);
}

proof fn lemma_e2_assoc_poly(a0: int, a1: int, b0: int, b1: int, c0: int, c1: int)
    ensures
        (a0 * b0 + 7 * (a1 * b1)) * c0 + 7 * ((a0 * b1 + a1 * b0) * c1) == a0 * (b0 * c0 + 7 * (
        b1 * c1)) + 7 * (a1 * (b0 * c1 + b1 * c0)),
        (a0 * b0 + 7 * (a1 * b1)) * c1 + (a0 * b1 + a1 * b0) * c0 == a0 * (b0 * c1 + b1 * c0) + a1
            * (b0 * c0 + 7 * (b1 * c1)),
{
    assert((a0 * b0 + 7 * (a1 * b1)) * c0 == a0 * (b0 * c0) + 7 * (a1 * (b1 * c0)))
        by (nonlinear_arith);
    assert(7 * ((a0 * b1 + a1 * b0) * c1) == 7 * (a0 * (b1 * c1)) + 7 * (a1 * (b0 * c1)))
        by (nonlinear_arith);
    assert(a0 * (b0 * c0 + 7 * (b1 * c1)) == a0 * (b0 * c0) + 7 * (a0 * (b1 * c1)))
        by (nonlinear_arith);
    assert(7 * (a1 * (b0 * c1 + b1 * c0)) == 7 * (a1 * (b0 * c1)) + 7 * (a1 * (b1 * c0)))
        by (nonlinear_arith);
    assert((a0 * b0 + 7 * (a1 * b1)) * c1 == a0 * (b0 * c1) + 7 * (a1 * (b1 * c1)))
        by (nonlinear_arith);
    assert((a0 * b1 + a1 * b0) * c0 == a0 * (b1 * c0) + a1 * (b0 * c0)) by (nonlinear_arith);
    assert(a0 * (b0 * c1 + b1 * c0) == a0 * (b0 * c1) + a0 * (b1 * c0)) by (nonlinear_arith);
    assert(a1 * (b0 * c0 + 7 * (b1 * c1)) == a1 * (b0 * c0) + 7 * (a1 * (b1 * c1)))
        by (nonlinear_arith);
}

/// The unit is neutral for canonical elements.
pub proof fn lemma_e2_mul_one(a: E2)
    requires
        e2_canon(a),
    ensures
        e2_mul(a, e2_one()) == a,
        e2_mul(e2_one(), a) == a,
{
    lemma_fmod_small(a.0);
    lemma_fmod_small(a.1);
}

/// `a^(m+n) = a^m a^n`.
pub proof fn lemma_e2_pow_add(a: E2, m: nat, n: nat)
    requires
        e2_canon(a),
    ensures
        e2_pow(a, m + n) == e2_mul(e2_pow(a, m), e2_pow(a, n)),
    decreases n,
{
    if n == 0 {
        lemma_e2_pow_canon(a, m);
        lemma_e2_mul_one(e2_pow(a, m));
    } else {
        lemma_e2_pow_add(a, m, (n - 1) as nat);
        assert(e2_pow(a, m + n) == e2_mul(e2_pow(a, (m + n - 1) as nat), a));
        lemma_e2_mul_assoc(e2_pow(a, m), e2_pow(a, (n - 1) as nat), a);
    }
}

/// Powers of canonical elements are canonical.
pub proof fn lemma_e2_pow_canon(a: E2, e: nat)
    ensures
        e2_canon(e2_pow(a, e)),
    decreases e,
{
    if e > 0 {
        lemma_e2_pow_canon(a, (e - 1) as nat);
    }
}

/// `(a^2)^h = a^(2h)`.
pub proof fn lemma_e2_pow_square(a: E2, h: nat)
    requires
        e2_canon(a),
    ensures
        e2_pow(e2_mul(a, a), h) == e2_pow(a, 2 * h),
    decreases h,
{
    if h > 0 {
        lemma_e2_pow_square(a, (h - 1) as nat);
        lemma_e2_pow_add(a, (2 * (h - 1)) as nat, 2);
        reveal_with_fuel(e2_pow, 3);
        assert(e2_pow(a, 2) == e2_mul(e2_mul(e2_one(), a), a));
        lemma_e2_mul_one(a);
    }
}

/// An element of `K = F_q[u]/(u^2 - 7)`: `c0 + c1 u`.
#[derive(Clone, Copy, PartialEq, Eq, Hash, Debug)]
pub struct Ext2 {
    /// Constant coefficient.
    pub c0: Fp,
    /// Coefficient of `u`.
    pub c1: Fp,
}

impl View for Ext2 {
    type V = E2;

    open spec fn view(&self) -> E2 {
        (self.c0@, self.c1@)
    }
}

impl Ext2 {
    /// The additive identity.
    pub fn zero() -> (r: Ext2)
        ensures
            r@ == e2_zero(),
    {
        Ext2 { c0: Fp::zero(), c1: Fp::zero() }
    }

    /// The multiplicative identity.
    pub fn one() -> (r: Ext2)
        ensures
            r@ == e2_one(),
    {
        Ext2 { c0: Fp::one(), c1: Fp::zero() }
    }

    /// Construct `c0 + c1 u`.
    pub fn new(c0: Fp, c1: Fp) -> (r: Ext2)
        ensures
            r@ == (c0@, c1@),
    {
        Ext2 { c0, c1 }
    }

    /// Embed a base-field element as a constant (`F_q` into `K`).
    pub fn from_base(a: Fp) -> (r: Ext2)
        ensures
            r@ == e2_base(a@),
    {
        Ext2 { c0: a, c1: Fp::zero() }
    }

    /// Whether this is the zero element.
    pub fn is_zero(self) -> (r: bool)
        ensures
            r == (self@ == e2_zero()),
    {
        self.c0.is_zero() && self.c1.is_zero()
    }

    /// Equality, decided on the residues.
    pub fn equals(self, other: Ext2) -> (r: bool)
        ensures
            r == (self@ == other@),
    {
        self.c0.equals(other.c0) && self.c1.equals(other.c1)
    }

    /// The Frobenius conjugate `c0 - c1 u`.
    pub fn conjugate(self) -> (r: Ext2)
        ensures
            r@ == e2_conj(self@),
    {
        Ext2 { c0: self.c0, c1: self.c1.neg() }
    }

    /// The field norm `c0^2 - 7 c1^2`, an element of `F_q`.
    pub fn norm(self) -> (r: Fp)
        ensures
            r@ == e2_norm(self@),
    {
        let w = Fp::new(7);
        let a = self.c0.square();
        let b = self.c1.square();
        let wb = w * b;
        let r = a - wb;
        proof {
            let (x, y) = (self.c0@ as int, self.c1@ as int);
            lemma_fmod_mul(7, y * y);
            lemma_fmod_sub(x * x, 7 * (y * y));
        }
        r
    }

    /// Multiply by a base-field scalar.
    pub fn mul_base(self, s: Fp) -> (r: Ext2)
        ensures
            r@ == e2_scale(self@, s@),
    {
        Ext2 { c0: self.c0 * s, c1: self.c1 * s }
    }

    /// `self^2`.
    pub fn square(self) -> (r: Ext2)
        ensures
            r@ == e2_mul(self@, self@),
    {
        self * self
    }

    /// `self^exp` by square-and-multiply.
    pub fn pow(self, exp: u64) -> (r: Ext2)
        ensures
            r@ == e2_pow(self@, exp as nat),
    {
        let mut base = self;
        let mut acc = Ext2::one();
        let mut e = exp;
        proof {
            lemma_e2_pow_canon(self@, exp as nat);
            lemma_e2_mul_one(e2_pow(self@, exp as nat));
            lemma_e2_mul_comm(e2_one(), e2_pow(self@, exp as nat));
        }
        while e > 0
            invariant
                e2_mul(acc@, e2_pow(base@, e as nat)) == e2_pow(self@, exp as nat),
            decreases e,
        {
            let ghost acc0 = acc@;
            let ghost base0 = base@;
            let ghost e0 = e;
            let bit = e & 1;
            proof {
                assert(bit == e % 2) by (bit_vector)
                    requires
                        bit == e & 1,
                ;
            }
            if bit == 1 {
                acc = acc * base;
            }
            base = base.square();
            e = e >> 1u32;
            proof {
                assert(e == e0 / 2) by (bit_vector)
                    requires
                        e == e0 >> 1u32,
                ;
                let h = (e0 / 2) as nat;
                lemma_e2_pow_square(base0, h);
                if e0 % 2 == 1 {
                    lemma_e2_pow_add(base0, 1, 2 * h);
                    lemma_e2_mul_one(base0);
                    reveal_with_fuel(e2_pow, 2);
                    assert(e2_pow(base0, 1) == base0);
                    assert(1 + 2 * h == e0);
                    lemma_e2_mul_assoc(acc0, base0, e2_pow(base0, 2 * h));
                } else {
                    assert(2 * h == e0);
                }
            }
        }
        proof {
            lemma_e2_mul_one(acc@);
        }
        acc
    }

    /// Multiplicative inverse: `conj(z) * N(z)^(-1)`.
    ///
    /// Fails exactly when the norm vanishes, which for the non-residue `7`
    /// happens only at zero.
    pub fn inv(self) -> (r: Result<Ext2, FieldError>)
        ensures
            e2_norm(self@) == 0 ==> r == Err::<Ext2, FieldError>(FieldError::InverseOfZero),
            e2_norm(self@) != 0 ==> (r matches Ok(v) && v@ == e2_scale(
                e2_conj(self@),
                fpow(e2_norm(self@), (Q - 2) as nat),
            )),
            (e2_norm(self@) == 0 <==> self@ == e2_zero()),
            self@ != e2_zero() ==> (r matches Ok(v) && e2_mul(self@, v@) == e2_one() && e2_mul(v@, self@) == e2_one()),
    {
        proof {
            law_e2_norm_zero(self@);
            if e2_norm(self@) != 0 {
                law_e2_inverse(self@);
            }
        }
        if self.is_zero() {
            proof {
                lemma_fmod_small(0);
                let (x, y) = self@;
                assert(x * x - 7 * (y * y) == 0) by (nonlinear_arith)
                    requires
                        x == 0,
                        y == 0,
                ;
            }
            return Err(FieldError::InverseOfZero);
        }
        let n_inv = match self.norm().inv() {
            Ok(v) => v,
            Err(e) => {
                return Err(e);
            },
        };
        Ok(self.conjugate().mul_base(n_inv))
    }
}

impl Add for Ext2 {
    type Output = Ext2;

    fn add(self, rhs: Ext2) -> (r: Ext2)
        ensures
            r@ == e2_add(self@, rhs@),
    {
        Ext2 { c0: self.c0 + rhs.c0, c1: self.c1 + rhs.c1 }
    }
}

impl vstd::std_specs::ops::AddSpecImpl for Ext2 {
    open spec fn obeys_add_spec() -> bool {
        false
    }

    open spec fn add_req(self, rhs: Ext2) -> bool {
        true
    }

    open spec fn add_spec(self, rhs: Ext2) -> Ext2 {
        self
    }
}

impl Sub for Ext2 {
    type Output = Ext2;

    fn sub(self, rhs: Ext2) -> (r: Ext2)
        ensures
            r@ == e2_sub(self@, rhs@),
    {
        Ext2 { c0: self.c0 - rhs.c0, c1: self.c1 - rhs.c1 }
    }
}

impl vstd::std_specs::ops::SubSpecImpl for Ext2 {
    open spec fn obeys_sub_spec() -> bool {
        false
    }

    open spec fn sub_req(self, rhs: Ext2) -> bool {
        true
    }

    open spec fn sub_spec(self, rhs: Ext2) -> Ext2 {
        self
    }
}

impl Neg for Ext2 {
    type Output = Ext2;

    fn neg(self) -> (r: Ext2)
        ensures
            r@ == e2_neg(self@),
    {
        Ext2 { c0: self.c0.neg(), c1: self.c1.neg() }
    }
}

impl vstd::std_specs::ops::NegSpecImpl for Ext2 {
    open spec fn obeys_neg_spec() -> bool {
        false
    }

    open spec fn neg_req(self) -> bool {
        true
    }

    open spec fn neg_spec(self) -> Ext2 {
        self
    }
}

impl Mul for Ext2 {
    type Output = Ext2;

    fn mul(self, rhs: Ext2) -> (r: Ext2)
        ensures
            r@ == e2_mul(self@, rhs@),
    {
        // (a + b u)(c + d u) = (ac + 7 bd) + (ad + bc) u, since u^2 = 7.
        let w = Fp::new(7);
        let ac = self.c0 * rhs.c0;
        let bd = self.c1 * rhs.c1;
        let ad = self.c0 * rhs.c1;
        let bc = self.c1 * rhs.c0;
        let r = Ext2 { c0: ac + w * bd, c1: ad + bc };
        proof {
            let (a, b, c, d) = (self.c0@ as int, self.c1@ as int, rhs.c0@ as int, rhs.c1@ as int);
            lemma_fmod_mul(7, b * d);
            lemma_fmod_add(a * c, 7 * (b * d));
            lemma_fmod_add(a * d, b * c);
        }
        r
    }
}

impl vstd::std_specs::ops::MulSpecImpl for Ext2 {
    open spec fn obeys_mul_spec() -> bool {
        false
    }

    open spec fn mul_req(self, rhs: Ext2) -> bool {
        true
    }

    open spec fn mul_spec(self, rhs: Ext2) -> Ext2 {
        self
    }
}

/// Multiplication in `K` distributes over addition.
pub proof fn lemma_e2_mul_distrib(a: E2, b: E2, c: E2)
    ensures
        e2_mul(a, e2_add(b, c)) == e2_add(e2_mul(a, b), e2_mul(a, c)),
{
    let (a0, a1, b0, b1, c0, c1) = (a.0 as int, a.1 as int, b.0 as int, b.1 as int, c.0 as int, c.1 as int);
    lemma_e2_mod_add_inner2(a0, b0 + c0, a1, b1 + c1);
    lemma_e2_mod_add_inner4(a0, b1 + c1, a1, b0 + c0);
    lemma_fmod_add(a0 * b0 + 7 * (a1 * b1), a0 * c0 + 7 * (a1 * c1));
    lemma_fmod_add(a0 * b1 + a1 * b0, a0 * c1 + a1 * c0);
    assert(a0 * (b0 + c0) + 7 * (a1 * (b1 + c1)) == (a0 * b0 + 7 * (a1 * b1)) + (a0 * c0 + 7 * (a1 * c1)))
        by (nonlinear_arith);
    assert(a0 * (b1 + c1) + a1 * (b0 + c0) == (a0 * b1 + a1 * b0) + (a0 * c1 + a1 * c0)) by (nonlinear_arith);
}

/// `K` is a commutative ring on canonical pairs: addition and multiplication are
/// commutative and associative, multiplication distributes over addition, `0` and `1`
/// are neutral, and every element has an additive inverse.
pub proof fn law_e2_field_axioms(a: E2, b: E2, c: E2)
    requires
        e2_canon(a),
        e2_canon(b),
        e2_canon(c),
    ensures
        e2_add(a, b) == e2_add(b, a),
        e2_mul(a, b) == e2_mul(b, a),
        e2_add(e2_add(a, b), c) == e2_add(a, e2_add(b, c)),
        e2_mul(e2_mul(a, b), c) == e2_mul(a, e2_mul(b, c)),
        e2_mul(a, e2_add(b, c)) == e2_add(e2_mul(a, b), e2_mul(a, c)),
        e2_add(a, e2_zero()) == a,
        e2_mul(a, e2_one()) == a,
        e2_add(a, e2_neg(a)) == e2_zero(),
{
    law_fp_field_axioms(a.0, b.0, c.0);
    law_fp_field_axioms(a.1, b.1, c.1);
    lemma_e2_mul_comm(a, b);
    lemma_e2_mul_assoc(a, b, c);
    lemma_e2_mul_distrib(a, b, c);
    lemma_e2_mul_one(a);
}

/// The field norm is multiplicative, and it is the product of an element with its
/// conjugate.
pub proof fn law_e2_norm(x: E2, y: E2)
    requires
        e2_canon(x),
        e2_canon(y),
    ensures
        e2_norm(e2_mul(x, y)) == fmul(e2_norm(x), e2_norm(y)),
        e2_mul(x, e2_conj(x)) == e2_base(e2_norm(x)),
{
    let (a0, a1, b0, b1) = (x.0 as int, x.1 as int, y.0 as int, y.1 as int);
    let p = a0 * b0 + 7 * (a1 * b1);
    let r = a0 * b1 + a1 * b0;
    // norm of the product, reduced after squaring
    lemma_fmod_mul(p, p);
    lemma_fmod_mul(r, r);
    lemma_fmod_mul(7, r * r);
    let fp2: int = fmod(p) as int * fmod(p) as int;
    let fr2: int = fmod(r) as int * fmod(r) as int;
    lemma_fmod_mul(7, fr2);
    lemma_fmod_sub(fp2, 7 * fr2);
    lemma_fmod_sub(p * p, 7 * (r * r));
    let na = a0 * a0 - 7 * (a1 * a1);
    let nb = b0 * b0 - 7 * (b1 * b1);
    lemma_fmod_mul(na, nb);
    let (e, f, g, h) = (a0 * b0, a1 * b1, a0 * b1, a1 * b0);
    let (aa, bb, cc, dd) = (a0 * a0, a1 * a1, b0 * b0, b1 * b1);
    assert(e * e == aa * cc) by (nonlinear_arith)
        requires
            e == a0 * b0,
            aa == a0 * a0,
            cc == b0 * b0,
    ;
    assert(f * f == bb * dd) by (nonlinear_arith)
        requires
            f == a1 * b1,
            bb == a1 * a1,
            dd == b1 * b1,
    ;
    assert(g * g == aa * dd) by (nonlinear_arith)
        requires
            g == a0 * b1,
            aa == a0 * a0,
            dd == b1 * b1,
    ;
    assert(h * h == bb * cc) by (nonlinear_arith)
        requires
            h == a1 * b0,
            bb == a1 * a1,
            cc == b0 * b0,
    ;
    assert(e * f == g * h) by (nonlinear_arith)
        requires
            e == a0 * b0,
            f == a1 * b1,
            g == a0 * b1,
            h == a1 * b0,
    ;
    assert(p * p == e * e + 14 * (e * f) + 49 * (f * f)) by (nonlinear_arith)
        requires
            p == e + 7 * f,
    ;
    assert(r * r == g * g + 2 * (g * h) + h * h) by (nonlinear_arith)
        requires
            r == g + h,
    ;
    assert(na * nb == aa * cc - 7 * (aa * dd) - 7 * (bb * cc) + 49 * (bb * dd)) by (nonlinear_arith)
        requires
            na == aa - 7 * bb,
            nb == cc - 7 * dd,
    ;
    assert(p * p - 7 * (r * r) == na * nb);
    // x conj(x)
    lemma_fmod_neg(a1);
    lemma_fmod_mul(a1, -a1);
    lemma_fmod_mul(a0, -a1);
    lemma_e2_mod_mul_inner2(a1, -a1);
    lemma_fmod_add(a0 * a0, 7 * (a1 * fmod(-a1)));
    lemma_fmod_add(a0 * a0, 7 * (a1 * (-a1)));
    lemma_e2_mod_add_inner2(a0, a0, a1, -a1);
    lemma_e2_mod_add_inner4(a0, -a1, a1, a0);
    assert(a0 * a0 + 7 * (a1 * (-a1)) == na) by (nonlinear_arith)
        requires
            na == a0 * a0 - 7 * (a1 * a1),
    ;
    assert(a0 * (-a1) + a1 * a0 == 0) by (nonlinear_arith);
    lemma_fmod_small(0);
}

/// The norm vanishes only at zero: `7` is not a square modulo `q`.
pub proof fn law_e2_norm_zero(z: E2)
    requires
        e2_canon(z),
    ensures
        e2_norm(z) == 0 <==> z == e2_zero(),
{
    let (a0, a1) = z;
    if z == e2_zero() {
        lemma_fmod_small(0);
        assert(a0 * a0 - 7 * (a1 * a1) == 0) by (nonlinear_arith)
            requires
                a0 == 0,
                a1 == 0,
        ;
    } else if e2_norm(z) == 0 {
        let x = (a0 * a0) as int;
        let y = (a1 * a1) as int;
        // fmod(x) == fmod(7 y)
        lemma_fmod_sub(x, 7 * y);
        lemma_fmod_small(0);
        assert(fmod(x) == fmod(7 * y)) by {
            let d = fmod(x) - fmod(7 * y);
            if d != 0 {
                assert(-(Q as int) < d < Q);
                if d > 0 {
                    lemma_fmod_small(d as nat);
                } else {
                    crate::fp::lemma_fmod_multiple(d, 1);
                    lemma_fmod_small((d + Q) as nat);
                }
            }
        }
        if a1 == 0 {
            assert(y == 0);
            assert(7 * y == 0);
            assert(fmul(a0, a0) == 0);
            crate::fp::law_fp_no_zero_divisors(a0, a0);
        } else {
            let w = fpow(a1, (Q - 2) as nat);
            crate::fp::law_fp_inverse(a1);
            let c = fmul(a0, w);
            let u = (a1 * w) as int;
            // c^2 = x w^2 = 7 y w^2 = 7 u^2 = 7
            lemma_fmod_mul((a0 * w) as int, (a0 * w) as int);
            assert((a0 * w) * (a0 * w) == x * (w * w)) by (nonlinear_arith)
                requires
                    x == a0 * a0,
            ;
            lemma_fmod_mul(x, (w * w) as int);
            lemma_fmod_mul(7 * y, (w * w) as int);
            assert((7 * y) * (w * w) == 7 * (u * u)) by (nonlinear_arith)
                requires
                    y == a1 * a1,
                    u == a1 * w,
            ;
            lemma_fmod_mul(7, u * u);
            lemma_fmod_mul(u, u);
            assert(fmod(u) == 1);
            lemma_fmod_small(1);
            lemma_fmod_small(7);
            let aw = (a0 * w) as int;
            assert(c == fmod(aw));
            assert(fmod(c as int * c as int) == fmod(aw * aw));
            let ww = (w * w) as int;
            assert(fmod(aw * aw) == fmod(x * ww));
            assert(fmod(x * ww) == fmod(fmod(x) as int * ww));
            assert(fmod(fmod(x) as int * ww) == fmod(fmod(7 * y) as int * ww));
            assert(fmod(fmod(7 * y) as int * ww) == fmod((7 * y) * ww));
            assert(fmod((7 * y) * ww) == fmod(7 * (u * u)));
            assert(fmod(7 * (u * u)) == fmod(7 * fmod(u * u) as int));
            assert(fmod(u * u) == fmod(fmod(u) as int * fmod(u) as int));
            assert(fmod(u * u) == 1);
            assert(fmod(c as int * c as int) == 7);
            crate::fermat::law_seven_not_square(c);
        }
    }
}

/// The inverse `conj(z) N(z)^(q-2)` of a nonzero element is a two-sided inverse.
pub proof fn law_e2_inverse(z: E2)
    requires
        e2_canon(z),
        e2_norm(z) != 0,
    ensures
        e2_mul(z, e2_scale(e2_conj(z), fpow(e2_norm(z), (Q - 2) as nat))) == e2_one(),
        e2_mul(e2_scale(e2_conj(z), fpow(e2_norm(z), (Q - 2) as nat)), z) == e2_one(),
{
    let n = e2_norm(z);
    let s = fpow(n, (Q - 2) as nat);
    let cz = e2_conj(z);
    let v = e2_scale(cz, s);
    lemma_fmod_small(0);
    assert(e2_mul(cz, e2_base(s)) == v) by {
        assert(cz.0 * s + 7 * (cz.1 * 0) == cz.0 * s);
        assert(cz.0 * 0 + cz.1 * s == cz.1 * s);
    }
    law_e2_norm(z, z);
    lemma_e2_mul_assoc(z, cz, e2_base(s));
    crate::fp::law_fp_inverse(n);
    assert(e2_mul(e2_base(n), e2_base(s)) == e2_one()) by {
        assert(n * s + 7 * (0 * 0) == n * s);
        assert(n * 0 + 0 * s == 0);
    }
    lemma_e2_mul_comm(z, v);
}

} // verus!
