//! The Goldilocks prime field `F_q`, `q = 2^64 - 2^32 + 1`.
//!
//! Elements are stored as canonical residues in `[0, q)`; the view of an element
//! is that residue as a natural number. Multiplication uses Solinas reduction
//! built on `2^64 = 2^32 - 1 (mod q)` and `2^96 = -1 (mod q)`.

use core::ops::{Add, Mul, Neg, Sub};

use vstd::arithmetic::div_mod::*;
use vstd::arithmetic::power::*;
use vstd::prelude::*;

use crate::error::FieldError;
use crate::Q;

verus! {

/// `2^32 - 1`, the residue of `2^64` modulo `q`.
const EPSILON: u64 = 0xFFFF_FFFF;

/// Reduction of an integer into `[0, q)`.
pub open spec fn fmod(x: int) -> nat {
    (x % (Q as int)) as nat
}

/// Field addition on residues.
pub open spec fn fadd(a: nat, b: nat) -> nat {
    fmod(a as int + b as int)
}

/// Field subtraction on residues.
pub open spec fn fsub(a: nat, b: nat) -> nat {
    fmod(a - b)
}

/// Field negation on residues.
pub open spec fn fneg(a: nat) -> nat {
    fmod(-a)
}

/// Field multiplication on residues.
pub open spec fn fmul(a: nat, b: nat) -> nat {
    fmod(a as int * b as int)
}

/// Field exponentiation on residues.
pub open spec fn fpow(a: nat, e: nat) -> nat {
    fmod(pow(a as int, e))
}

/// The balanced representative of a residue, in `(-q/2, q/2]`.
pub open spec fn balanced_of(a: nat) -> int {
    if a > Q / 2 {
        a - Q
    } else {
        a as int
    }
}

/// The magnitude of the balanced representative.
pub open spec fn abs_balanced_of(a: nat) -> nat {
    let b = balanced_of(a);
    if b < 0 {
        (-b) as nat
    } else {
        b as nat
    }
}

/// The residues of a sequence of field elements.
pub open spec fn fp_seq(s: Seq<Fp>) -> Seq<nat> {
    s.map_values(|c: Fp| c@)
}

/// The integer inner product of the first `n` entries of two residue sequences.
pub open spec fn dot(a: Seq<nat>, b: Seq<nat>, n: int) -> int
    decreases n,
{
    if n <= 0 {
        0
    } else {
        dot(a, b, n - 1) + a[n - 1] * b[n - 1]
    }
}

/// An element of the Goldilocks field, stored canonically in `[0, q)`.
#[derive(Clone, Copy, PartialEq, Eq, Hash, Debug)]
pub struct Fp(u64);

impl View for Fp {
    type V = nat;

    closed spec fn view(&self) -> nat {
        (self.0 % Q) as nat
    }
}

/// Every field element is a residue below `q`.
pub broadcast proof fn lemma_fp_lt_q(x: Fp)
    ensures
        #[trigger] x@ < Q,
{
}

/// `fmod` of a residue is the residue itself.
pub broadcast proof fn lemma_fmod_small(x: nat)
    requires
        x < Q,
    ensures
        #[trigger] fmod(x as int) == x,
{
    lemma_small_mod(x, Q as nat);
}

/// `fmod` is idempotent.
pub proof fn lemma_fmod_fmod(x: int)
    ensures
        fmod(fmod(x) as int) == fmod(x),
{
    lemma_mod_twice(x, Q as int);
}

/// Addition commutes with reduction.
pub proof fn lemma_fmod_add(x: int, y: int)
    ensures
        fmod(fmod(x) as int + fmod(y) as int) == fmod(x + y),
        fmod(fmod(x) + y) == fmod(x + y),
        fmod(x + fmod(y)) == fmod(x + y),
{
    lemma_add_mod_noop(x, y, Q as int);
    lemma_add_mod_noop_right(x, y, Q as int);
    lemma_mod_twice(x, Q as int);
    lemma_add_mod_noop(fmod(x) as int, y, Q as int);
}

/// Subtraction commutes with reduction.
pub proof fn lemma_fmod_sub(x: int, y: int)
    ensures
        fmod(fmod(x) - fmod(y)) == fmod(x - y),
        fmod(fmod(x) - y) == fmod(x - y),
        fmod(x - fmod(y)) == fmod(x - y),
{
    lemma_sub_mod_noop(x, y, Q as int);
    lemma_sub_mod_noop_right(x, y, Q as int);
    lemma_mod_twice(x, Q as int);
    lemma_sub_mod_noop(fmod(x) as int, y, Q as int);
}

/// Multiplication commutes with reduction.
pub proof fn lemma_fmod_mul(x: int, y: int)
    ensures
        fmod(fmod(x) as int * fmod(y) as int) == fmod(x * y),
        fmod(fmod(x) * y) == fmod(x * y),
        fmod(x * fmod(y)) == fmod(x * y),
{
    lemma_mul_mod_noop(x, y, Q as int);
    lemma_mul_mod_noop_left(x, y, Q as int);
    lemma_mul_mod_noop_right(x, y, Q as int);
}

/// Negation commutes with reduction.
pub proof fn lemma_fmod_neg(x: int)
    ensures
        fmod(-fmod(x)) == fmod(-x),
{
    lemma_fmod_sub(0, x);
}

/// Two integers that differ by a multiple of `q` reduce equally.
pub proof fn lemma_fmod_multiple(x: int, k: int)
    ensures
        fmod(x + (Q as int) * k) == fmod(x),
{
    lemma_mod_multiples_vanish(k, x, Q as int);
}

impl Fp {
    #[verifier::type_invariant]
    spec fn canonical(self) -> bool {
        self.0 < Q
    }

    /// The modulus, for callers.
    pub const MODULUS: u64 = Q;

    /// Construct from a `u64`, reducing into `[0, q)`.
    ///
    /// One conditional subtraction suffices because any `u64` is below `2q`.
    pub fn new(x: u64) -> (r: Fp)
        ensures
            r@ == fmod(x as int),
    {
        if x >= Q {
            proof {
                lemma_fmod_multiple(x - Q, 1);
            }
            Fp(x - Q)
        } else {
            Fp(x)
        }
    }

    /// The additive identity.
    pub fn zero() -> (r: Fp)
        ensures
            r@ == 0,
    {
        Fp(0)
    }

    /// The multiplicative identity.
    pub fn one() -> (r: Fp)
        ensures
            r@ == 1,
    {
        Fp(1)
    }

    /// Construct from a value already known to be canonical (`< q`).
    pub fn from_canonical(x: u64) -> (r: Result<Fp, FieldError>)
        ensures
            x < Q ==> (r matches Ok(v) && v@ == x),
            x >= Q ==> r == Err::<Fp, FieldError>(FieldError::NonCanonical(x)),
    {
        if x < Q {
            Ok(Fp(x))
        } else {
            Err(FieldError::NonCanonical(x))
        }
    }

    /// Embed a signed integer: `v` maps to `v mod q`.
    pub fn from_i64(v: i64) -> (r: Fp)
        ensures
            r@ == fmod(v as int),
    {
        if v >= 0 {
            Fp::new(v as u64)
        } else {
            let mag: u64 = (-(v as i128)) as u64;
            let m = Fp::new(mag);
            proof {
                lemma_fmod_neg(mag as int);
            }
            m.neg()
        }
    }

    /// The canonical `u64` representative in `[0, q)`.
    pub fn to_u64(self) -> (r: u64)
        ensures
            r == self@,
    {
        proof {
            use_type_invariant(&self);
        }
        self.0
    }

    /// Whether this is the zero element.
    pub fn is_zero(self) -> (r: bool)
        ensures
            r == (self@ == 0),
    {
        proof {
            use_type_invariant(&self);
        }
        self.0 == 0
    }

    /// Equality of field elements, decided on their residues.
    pub fn equals(self, other: Fp) -> (r: bool)
        ensures
            r == (self@ == other@),
    {
        proof {
            use_type_invariant(&self);
            use_type_invariant(&other);
        }
        self.0 == other.0
    }

    /// The balanced representative in `(-q/2, q/2]`.
    pub fn balanced(self) -> (r: i64)
        ensures
            r == balanced_of(self@),
    {
        proof {
            use_type_invariant(&self);
        }
        if self.0 > Q / 2 {
            -((Q - self.0) as i64)
        } else {
            self.0 as i64
        }
    }

    /// The magnitude `|balanced|`, the infinity norm of one coordinate.
    pub fn abs_balanced(self) -> (r: u64)
        ensures
            r == abs_balanced_of(self@),
            r <= Q / 2,
    {
        proof {
            use_type_invariant(&self);
        }
        if self.0 > Q / 2 {
            Q - self.0
        } else {
            self.0
        }
    }

    /// Reduce a 128-bit value modulo `q` (Solinas).
    ///
    /// Splits `x = lo + 2^64 (hi_lo + 2^32 hi_hi)` and applies `2^64 = EPSILON`,
    /// `2^96 = -1` modulo `q`.
    pub fn reduce128(x: u128) -> (r: Fp)
        ensures
            r@ == fmod(x as int),
    {
        let lo = x as u64;
        let hi = (x >> 64u32) as u64;
        let hi_hi = hi >> 32u32;
        let hi_lo = hi & EPSILON;
        proof {
            assert(lo == x % 0x1_0000_0000_0000_0000u128) by (bit_vector)
                requires
                    lo == x as u64,
            ;
            assert(hi == x / 0x1_0000_0000_0000_0000u128) by (bit_vector)
                requires
                    hi == (x >> 64u32) as u64,
            ;
            assert(hi_hi == hi / 0x1_0000_0000u64) by (bit_vector)
                requires
                    hi_hi == hi >> 32u32,
            ;
            assert(hi_lo == hi % 0x1_0000_0000u64) by (bit_vector)
                requires
                    hi_lo == hi & 0xFFFF_FFFFu64,
            ;
            lemma_fundamental_div_mod(x as int, 0x1_0000_0000_0000_0000int);
            lemma_fundamental_div_mod(hi as int, 0x1_0000_0000int);
            assert(hi_lo * 0xFFFF_FFFFint <= 0xFFFF_FFFE_0000_0001int) by (nonlinear_arith)
                requires
                    hi_lo < 0x1_0000_0000int,
            ;
        }
        // 2^96 = -1: subtract hi_hi, adding q back on a borrow.
        let borrow: bool = lo < hi_hi;
        let t0: u64 = if !borrow {
            lo - hi_hi
        } else {
            lo + (Q - hi_hi)
        };
        // 2^64 = EPSILON: add hi_lo * EPSILON, subtracting q on a carry.
        let t1: u64 = hi_lo * EPSILON;
        let carry: bool = t0 > u64::MAX - t1;
        let res: u64 = if !carry {
            t0 + t1
        } else {
            (t0 - (u64::MAX - t1) - 1) + EPSILON
        };
        proof {
            let b: int = if borrow {
                1
            } else {
                0
            };
            let c: int = if carry {
                1
            } else {
                0
            };
            assert(t0 == lo - hi_hi + b * (Q as int));
            assert(res == t0 + t1 - c * (Q as int));
            assert(x as int == res + (Q as int) * (hi_lo + 0x1_0000_0001int * hi_hi + c - b));
            lemma_fmod_multiple(res as int, hi_lo + 0x1_0000_0001int * hi_hi + c - b);
        }
        Fp::new(res)
    }

    /// `self^2`.
    pub fn square(self) -> (r: Fp)
        ensures
            r@ == fmul(self@, self@),
    {
        self * self
    }

    /// `self^exp` by square-and-multiply.
    pub fn pow(self, exp: u64) -> (r: Fp)
        ensures
            r@ == fpow(self@, exp as nat),
    {
        let mut base = self;
        let mut acc = Fp::one();
        let mut e = exp;
        proof {
            lemma_pow0(base@ as int);
            lemma_fmod_small(1);
        }
        while e > 0
            invariant
                fmod(acc@ * pow(base@ as int, e as nat)) == fpow(self@, exp as nat),
            decreases e,
        {
            let ghost acc0 = acc@;
            let ghost base0 = base@;
            let ghost e0 = e;
            let bit = e & 1;
            proof {
                assert(bit == e % 2) by (bit_vector)
                    requires
                        bit == e & 1,
                ;
            }
            if bit == 1 {
                acc = acc * base;
            }
            base = base.square();
            e = e >> 1u32;
            proof {
                assert(e == e0 / 2) by (bit_vector)
                    requires
                        e == e0 >> 1u32,
                ;
                lemma_pow_step(acc0, base0, e0 as nat);
            }
        }
        proof {
            lemma_pow0(base@ as int);
            lemma_fmod_small(acc@);
        }
        acc
    }

    /// Multiplicative inverse by Fermat's little theorem (`a^(q-2)`).
    pub fn inv(self) -> (r: Result<Fp, FieldError>)
        ensures
            self@ == 0 ==> r == Err::<Fp, FieldError>(FieldError::InverseOfZero),
            self@ != 0 ==> (r matches Ok(v) && v@ == fpow(self@, (Q - 2) as nat)),
            self@ != 0 ==> (r matches Ok(v) && fmul(self@, v@) == 1 && fmul(v@, self@) == 1),
    {
        if self.is_zero() {
            return Err(FieldError::InverseOfZero);
        }
        let r = self.pow(Q - 2);
        proof {
            law_fp_inverse(self@);
            law_fp_field_axioms(self@, r@, 0);
        }
        Ok(r)
    }
}

/// One square-and-multiply step preserves `acc * base^e (mod q)`.
proof fn lemma_pow_step(acc: nat, base: nat, e: nat)
    requires
        e > 0,
    ensures
        fmod(
            (if e % 2 == 1 {
                fmul(acc, base)
            } else {
                acc
            }) * pow(fmul(base, base) as int, e / 2),
        ) == fmod(acc * pow(base as int, e)),
{
    let h = e / 2;
    let bb = base * base;
    lemma_fundamental_div_mod(e as int, 2);
    lemma_square_is_pow2(base as int);
    lemma_pow_multiplies(base as int, 2, h);
    assert(pow(bb as int, h) == pow(base as int, 2 * h)) by {
        assert(pow(base as int, 2) == bb);
    }
    lemma_pow_mod_noop(bb as int, h, Q as int);
    let p = pow(bb as int, h);
    let pm = pow(fmul(base, base) as int, h);
    assert(fmod(pm) == fmod(p));
    if e % 2 == 1 {
        lemma_pow_adds(base as int, 2 * h, 1);
        lemma_pow1(base as int);
        assert(pow(base as int, e) == p * base) by {
            assert(e == 2 * h + 1);
            vstd::arithmetic::mul::lemma_mul_is_commutative(p, base as int);
        }
        lemma_fmod_mul(fmul(acc, base) as int, pm);
        lemma_fmod_mul(fmul(acc, base) as int, p);
        lemma_fmod_mul((acc * base) as int, p);
        vstd::arithmetic::mul::lemma_mul_is_associative(acc as int, base as int, p);
        vstd::arithmetic::mul::lemma_mul_is_associative(acc as int, p, base as int);
        vstd::arithmetic::mul::lemma_mul_is_commutative(base as int, p);
    } else {
        assert(e == 2 * h);
        lemma_fmod_mul(acc as int, pm);
        lemma_fmod_mul(acc as int, p);
    }
}

impl Add for Fp {
    type Output = Fp;

    fn add(self, rhs: Fp) -> (r: Fp)
        ensures
            r@ == fadd(self@, rhs@),
    {
        proof {
            use_type_invariant(&self);
            use_type_invariant(&rhs);
        }
        // a + b < 2q, so subtract q at most once.
        let s: u128 = self.0 as u128 + rhs.0 as u128;
        let q: u128 = Q as u128;
        if s >= q {
            proof {
                lemma_fmod_multiple(s - q, 1);
            }
            Fp((s - q) as u64)
        } else {
            Fp(s as u64)
        }
    }
}

impl vstd::std_specs::ops::AddSpecImpl for Fp {
    open spec fn obeys_add_spec() -> bool {
        false
    }

    open spec fn add_req(self, rhs: Fp) -> bool {
        true
    }

    open spec fn add_spec(self, rhs: Fp) -> Fp {
        self
    }
}

impl Sub for Fp {
    type Output = Fp;

    fn sub(self, rhs: Fp) -> (r: Fp)
        ensures
            r@ == fsub(self@, rhs@),
    {
        proof {
            use_type_invariant(&self);
            use_type_invariant(&rhs);
        }
        if self.0 >= rhs.0 {
            Fp(self.0 - rhs.0)
        } else {
            proof {
                lemma_fmod_multiple(self.0 - rhs.0, 1);
            }
            Fp(self.0 + (Q - rhs.0))
        }
    }
}

impl vstd::std_specs::ops::SubSpecImpl for Fp {
    open spec fn obeys_sub_spec() -> bool {
        false
    }

    open spec fn sub_req(self, rhs: Fp) -> bool {
        true
    }

    open spec fn sub_spec(self, rhs: Fp) -> Fp {
        self
    }
}

impl Neg for Fp {
    type Output = Fp;

    fn neg(self) -> (r: Fp)
        ensures
            r@ == fneg(self@),
    {
        proof {
            use_type_invariant(&self);
        }
        if self.0 == 0 {
            Fp(0)
        } else {
            proof {
                lemma_fmod_multiple(-self.0, 1);
            }
            Fp(Q - self.0)
        }
    }
}

impl vstd::std_specs::ops::NegSpecImpl for Fp {
    open spec fn obeys_neg_spec() -> bool {
        false
    }

    open spec fn neg_req(self) -> bool {
        true
    }

    open spec fn neg_spec(self) -> Fp {
        self
    }
}

impl Mul for Fp {
    type Output = Fp;

    fn mul(self, rhs: Fp) -> (r: Fp)
        ensures
            r@ == fmul(self@, rhs@),
    {
        proof {
            use_type_invariant(&self);
            use_type_invariant(&rhs);
            assert((self.0 as u128) * (rhs.0 as u128) <= u128::MAX) by (nonlinear_arith)
                requires
                    self.0 <= u64::MAX,
                    rhs.0 <= u64::MAX,
            ;
        }
        Fp::reduce128(self.0 as u128 * rhs.0 as u128)
    }
}

impl vstd::std_specs::ops::MulSpecImpl for Fp {
    open spec fn obeys_mul_spec() -> bool {
        false
    }

    open spec fn mul_req(self, rhs: Fp) -> bool {
        true
    }

    open spec fn mul_spec(self, rhs: Fp) -> Fp {
        self
    }
}

/// `F_q` is a commutative ring on residues: addition and multiplication are commutative
/// and associative, multiplication distributes over addition, `0` and `1` are neutral,
/// every residue has an additive inverse, and subtraction adds the negation.
pub proof fn law_fp_field_axioms(a: nat, b: nat, c: nat)
    requires
        a < Q,
        b < Q,
        c < Q,
    ensures
        fadd(a, b) == fadd(b, a),
        fmul(a, b) == fmul(b, a),
        fadd(fadd(a, b), c) == fadd(a, fadd(b, c)),
        fmul(fmul(a, b), c) == fmul(a, fmul(b, c)),
        fmul(a, fadd(b, c)) == fadd(fmul(a, b), fmul(a, c)),
        fadd(a, 0) == a,
        fmul(a, 1) == a,
        fadd(a, fneg(a)) == 0,
        fsub(a, b) == fadd(a, fneg(b)),
{
    let (x, y, z) = (a as int, b as int, c as int);
    assert(x * y == y * x) by (nonlinear_arith);
    lemma_fmod_add(x + y, z);
    lemma_fmod_add(x, y + z);
    lemma_fmod_add(fmod(x + y) as int, z);
    lemma_fmod_add(x, fmod(y + z) as int);
    lemma_fmod_mul(x * y, z);
    lemma_fmod_mul(x, y * z);
    assert((x * y) * z == x * (y * z)) by (nonlinear_arith);
    lemma_fmod_mul(fmod(x * y) as int, z);
    lemma_fmod_mul(x, fmod(y * z) as int);
    assert(x * (y + z) == x * y + x * z) by (nonlinear_arith);
    lemma_fmod_mul(x, y + z);
    lemma_fmod_add(x * y, x * z);
    lemma_fmod_small(a);
    assert(x * 1 == x);
    lemma_fmod_neg(x);
    lemma_fmod_add(x, -x);
    lemma_fmod_add(x, -y);
    lemma_fmod_small(0);
}

/// Every nonzero residue is invertible: `a * a^(q-2) = 1`, by Fermat's little theorem.
pub proof fn law_fp_inverse(a: nat)
    requires
        0 < a < Q,
    ensures
        fmul(a, fpow(a, (Q - 2) as nat)) == 1,
{
    let e = (Q - 2) as nat;
    crate::fermat::law_fermat(a);
    lemma_fmod_mul(a as int, pow(a as int, e));
    lemma_pow_adds(a as int, 1, e);
    lemma_pow1(a as int);
    assert(1 + e == (Q - 1) as nat);
}

/// `F_q` has no zero divisors: a product of residues is zero only if a factor is.
pub proof fn law_fp_no_zero_divisors(a: nat, b: nat)
    requires
        a < Q,
        b < Q,
    ensures
        fmul(a, b) == 0 <==> (a == 0 || b == 0),
{
    if a == 0 || b == 0 {
        lemma_fmod_small(0);
        assert(a * b == 0) by (nonlinear_arith)
            requires
                a == 0 || b == 0,
        ;
    } else if fmul(a, b) == 0 {
        let w = fpow(a, (Q - 2) as nat);
        law_fp_inverse(a);
        law_fp_field_axioms(w, a, b);
        law_fp_field_axioms(a, w, b);
        law_fp_field_axioms(b, 1, 0);
        law_fp_field_axioms(1, b, 0);
        lemma_fmod_small(0);
        assert(w * 0 == 0);
        assert(fmul(w, 0) == 0);
    }
}

} // verus!
