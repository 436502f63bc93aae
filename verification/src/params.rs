//! Parameter sets and their validation guard.

use vstd::arithmetic::power::*;
use vstd::prelude::*;

use crate::error::CommitError;

verus! {

/// A parameter set: the security-relevant constants.
#[derive(Debug, Clone, Copy, PartialEq, Eq)]
pub struct Params {
    /// Ring degree `d`.
    pub d: usize,
    /// Module rank `kappa` of the Ajtai matrix.
    pub kappa: usize,
    /// Decomposition base `b`.
    pub b: u64,
    /// Decomposition depth `k` (`B = b^k`).
    pub k: usize,
    /// High norm bound `B = b^k`.
    pub big_b: u64,
    /// Expansion factor `T` of the strong sampling set.
    pub t_exp: u64,
    /// Maximum number of fresh CCS instances folded per step (`K`).
    pub max_fresh: u64,
    /// Soundness parameter `lambda` (bits).
    pub lambda: u32,
}

/// The left side of the folding guard, `(K + k) T (b - 1)`, saturated at `u64::MAX`.
pub open spec fn guard_lhs(p: Params) -> nat {
    let v = (p.max_fresh + p.k) * p.t_exp * (p.b - 1);
    if v > u64::MAX {
        u64::MAX as nat
    } else {
        v as nat
    }
}

/// The parameter set satisfies `B = b^k` and `(K + k) T (b - 1) < B`.
pub open spec fn params_valid(p: Params) -> bool {
    &&& p.b >= 1
    &&& pow(p.b as int, p.k as nat) == p.big_b
    &&& guard_lhs(p) < p.big_b
}

/// `x * y` saturated at `u64::MAX`.
fn sat_mul(x: u64, y: u64) -> (r: u64)
    ensures
        r == (if x * y > u64::MAX { u64::MAX as int } else { x * y }),
{
    match x.checked_mul(y) {
        Some(v) => v,
        None => u64::MAX,
    }
}

impl Params {
    /// The Goldilocks parameter values.
    pub open spec fn goldilocks_spec() -> Params {
        Params {
            d: 54,
            kappa: 18,
            b: 2,
            k: 14,
            big_b: 16384,
            t_exp: 216,
            max_fresh: 61,
            lambda: 125,
        }
    }

    /// The Goldilocks parameter set: `d = 54`, `kappa = 18`, `b = 2`, `k = 14`,
    /// `B = 2^14`, `T = 216`, `K <= 61`, `lambda = 125`.
    pub fn goldilocks_b2() -> (p: Params)
        ensures
            p == Params::goldilocks_spec(),
    {
        Params {
            d: 54,
            kappa: 18,
            b: 2,
            k: 14,
            big_b: 16384,
            t_exp: 216,
            max_fresh: 61,
            lambda: 125,
        }
    }

    /// Validate the parameter set: `B = b^k` and `(K + k) T (b - 1) < B`.
    pub fn validate(&self) -> (r: Result<(), CommitError>)
        ensures
            r is Ok <==> params_valid(*self),
            r matches Err(e) ==> self.validate_spec_err(e),
            self.b >= 1 && pow(self.b as int, self.k as nat) == self.big_b && !(guard_lhs(*self)
                < self.big_b) ==> r == Err::<(), CommitError>(
                CommitError::GuardFailed { lhs: guard_lhs(*self) as u64, rhs: self.big_b },
            ),
            (self.b == 0 || pow(self.b as int, self.k as nat) != self.big_b) ==> r matches Err(
                CommitError::DimMismatch(_),
            ),
    {
        if self.b == 0 {
            return Err(CommitError::DimMismatch("b must be positive".to_owned()));
        }
        // B must equal b^k.
        let mut pw: u64 = 1;
        let mut t: usize = 0;
        proof {
            lemma_pow0(self.b as int);
        }
        while t < self.k
            invariant
                t <= self.k,
                self.b >= 1,
                pw == pow(self.b as int, t as nat),
            decreases self.k - t,
        {
            proof {
                reveal(pow);
                assert(pow(self.b as int, (t + 1) as nat) == self.b * pow(self.b as int, t as nat));
                assert(pw * self.b == self.b * pw) by (nonlinear_arith);
            }
            match pw.checked_mul(self.b) {
                Some(v) => {
                    pw = v;
                },
                None => {
                    proof {
                        lemma_pow_increases(self.b as nat, (t + 1) as nat, self.k as nat);
                    }
                    return Err(CommitError::DimMismatch("b^k overflowed u64".to_owned()));
                },
            }
            t = t + 1;
        }
        if pw != self.big_b {
            return Err(CommitError::DimMismatch(crate::error::msg_big_b(self.big_b, pw)));
        }
        // Folding guard: (K + k) T (b - 1) < B.
        let kk = self.max_fresh as u128 + self.k as u128;
        let s1: u64 = if kk > u64::MAX as u128 {
            u64::MAX
        } else {
            kk as u64
        };
        let lhs = sat_mul(sat_mul(s1, self.t_exp), self.b - 1);
        proof {
            assert(guard_lhs(*self) == lhs) by {
                lemma_sat_mul_chain(self.max_fresh + self.k, self.t_exp as int, self.b - 1);
            }
        }
        if lhs >= self.big_b {
            return Err(CommitError::GuardFailed { lhs, rhs: self.big_b });
        }
        Ok(())
    }

    /// The error that `validate` returns on an invalid parameter set.
    pub open spec fn validate_spec_err(&self, e: CommitError) -> bool {
        if self.b >= 1 && pow(self.b as int, self.k as nat) == self.big_b {
            e == CommitError::GuardFailed { lhs: guard_lhs(*self) as u64, rhs: self.big_b }
        } else {
            e is DimMismatch
        }
    }

    /// The largest coefficient magnitude in a strong-sampling-set element.
    pub fn challenge_coeff_bound(&self) -> (r: i64)
        ensures
            r == 2,
    {
        2
    }
}

/// Saturating the partial products agrees with saturating the full product.
proof fn lemma_sat_mul_chain(a: int, t: int, c: int)
    requires
        a >= 0,
        t >= 0,
        c >= 0,
    ensures
        ({
            let s1 = if a > u64::MAX { u64::MAX as int } else { a };
            let s2 = if s1 * t > u64::MAX { u64::MAX as int } else { s1 * t };
            let s3 = if s2 * c > u64::MAX { u64::MAX as int } else { s2 * c };
            let v = a * t * c;
            s3 == if v > u64::MAX { u64::MAX as int } else { v }
        }),
{
    let m = u64::MAX as int;
    let s1 = if a > m { m } else { a };
    let s2 = if s1 * t > m { m } else { s1 * t };
    let v = a * t * c;
    if t == 0 || c == 0 {
        assert(a * t * c == 0) by (nonlinear_arith)
            requires
                t == 0 || c == 0,
        ;
        assert(s1 * t * c == 0 && s2 * c == 0) by (nonlinear_arith)
            requires
                t == 0 || c == 0,
                s2 == 0 || c == 0,
                s2 <= s1 * t || s2 == m,
                t == 0 ==> s2 == 0,
        ;
    } else {
        assert(s1 * t >= s1 && s2 * c >= s2 && a * t >= a && a * t * c >= a * t) by (nonlinear_arith)
            requires
                t >= 1,
                c >= 1,
                s1 >= 0,
                s2 >= 0,
                a >= 0,
        ;
        if a > m {
            assert(v > m);
        } else if a * t > m {
            assert(v > m);
            assert(s2 == m);
        } else {
            assert(s2 == a * t);
        }
    }
}

} // verus!
