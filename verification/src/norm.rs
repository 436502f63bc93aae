//! The balanced infinity norm: the largest balanced magnitude of any coordinate.

use vstd::prelude::*;

use crate::fp::{
    abs_balanced_of, balanced_of, fadd, fmod, fp_seq, lemma_fmod_add, lemma_fmod_multiple, lemma_fmod_mul, lemma_fmod_small,
    Fp,
};
use crate::ring::{conv_sum, lemma_fmod_combine, ring_add, ring_mul, ring_seq, ring_wf, RingElem, D};
use crate::Q;

verus! {

/// `m` is the largest balanced magnitude in `s` (zero for the empty sequence).
pub open spec fn is_norm_of(m: nat, s: Seq<nat>) -> bool {
    &&& forall|i: int| 0 <= i < s.len() ==> abs_balanced_of(#[trigger] s[i]) <= m
    &&& (s.len() == 0 ==> m == 0)
    &&& (s.len() > 0 ==> exists|i: int| 0 <= i < s.len() && abs_balanced_of(#[trigger] s[i]) == m)
}

/// `m` is the largest balanced magnitude of any coefficient of any element of `v`.
pub open spec fn is_norm_of_ring_vec(m: nat, v: Seq<Seq<nat>>) -> bool {
    &&& forall|i: int, l: int|
        0 <= i < v.len() && 0 <= l < D ==> abs_balanced_of(#[trigger] v[i][l]) <= m
    &&& (v.len() == 0 ==> m == 0)
    &&& (v.len() > 0 ==> exists|i: int, l: int|
        0 <= i < v.len() && 0 <= l < D && abs_balanced_of(#[trigger] v[i][l]) == m)
}

/// The infinity norm of a field vector.
pub fn norm_inf_fp(v: &[Fp]) -> (r: u64)
    ensures
        is_norm_of(r as nat, fp_seq(v@)),
{
    let mut m: u64 = 0;
    let mut i: usize = 0;
    while i < v.len()
        invariant
            i <= v.len(),
            forall|t: int| 0 <= t < i ==> abs_balanced_of(#[trigger] v@[t]@) <= m,
            i == 0 ==> m == 0,
            i > 0 ==> exists|t: int| 0 <= t < i && abs_balanced_of(#[trigger] v@[t]@) == m,
        decreases v.len() - i,
    {
        let a = v[i].abs_balanced();
        if i == 0 || a > m {
            m = a;
        }
        i = i + 1;
    }
    proof {
        let s = fp_seq(v@);
        assert forall|t: int| 0 <= t < s.len() implies abs_balanced_of(#[trigger] s[t]) <= m by {
            assert(s[t] == v@[t]@);
        }
        if s.len() > 0 {
            let t = choose|t: int| 0 <= t < i && abs_balanced_of(#[trigger] v@[t]@) == m;
            assert(s[t] == v@[t]@);
        }
    }
    m
}

/// The infinity norm of one ring element (over its coefficients).
pub fn norm_inf_ring(a: &RingElem) -> (r: u64)
    ensures
        is_norm_of(r as nat, a@),
{
    let c = a.coeffs();
    norm_inf_fp(c)
}

/// The infinity norm of a ring vector (over all coefficients of all elements).
pub fn norm_inf_ring_vec(v: &[RingElem]) -> (r: u64)
    ensures
        is_norm_of_ring_vec(r as nat, ring_seq(v@)),
{
    let mut m: u64 = 0;
    let mut i: usize = 0;
    while i < v.len()
        invariant
            i <= v.len(),
            forall|t: int, l: int|
                0 <= t < i && 0 <= l < D ==> abs_balanced_of(#[trigger] v@[t]@[l]) <= m,
            i == 0 ==> m == 0,
            i > 0 ==> exists|t: int, l: int|
                0 <= t < i && 0 <= l < D && abs_balanced_of(#[trigger] v@[t]@[l]) == m,
        decreases v.len() - i,
    {
        let a = norm_inf_ring(&v[i]);
        proof {
            crate::ring::lemma_ring_wf(v@[i as int]);
        }
        if i == 0 || a > m {
            let ghost l = choose|l: int| 0 <= l < v@[i as int]@.len() && abs_balanced_of(
                #[trigger] v@[i as int]@[l],
            ) == a;
            m = a;
        }
        i = i + 1;
    }
    proof {
        let s = ring_seq(v@);
        assert forall|t: int, l: int|
            0 <= t < s.len() && 0 <= l < D implies abs_balanced_of(#[trigger] s[t][l]) <= m by {
            assert(s[t] == v@[t]@);
        }
        if s.len() > 0 {
            let (t, l) = choose|t: int, l: int|
                0 <= t < i && 0 <= l < D && abs_balanced_of(#[trigger] v@[t]@[l]) == m;
            assert(s[t] == v@[t]@);
        }
    }
    m
}

/// A residue is congruent to its balanced representative.
pub proof fn lemma_balanced_fmod(x: nat)
    requires
        x < Q,
    ensures
        fmod(balanced_of(x)) == x,
{
    lemma_fmod_small(x);
    if x > Q / 2 {
        lemma_fmod_multiple(x - Q, 1);
    }
}

/// An integer of magnitude at most `q / 2` is the balanced representative of its residue.
pub proof fn lemma_fmod_balanced(s: int)
    requires
        -(Q / 2) as int <= s <= (Q / 2) as int,
    ensures
        balanced_of(fmod(s)) == s,
        abs_balanced_of(fmod(s)) == if s < 0 { -s } else { s },
{
    if s >= 0 {
        lemma_fmod_small(s as nat);
    } else {
        lemma_fmod_multiple(s, 1);
        lemma_fmod_small((s + Q) as nat);
    }
}

/// The sum of two residues is small when both are.
pub proof fn lemma_fadd_norm(x: nat, y: nat, mx: nat, my: nat)
    requires
        x < Q,
        y < Q,
        abs_balanced_of(x) <= mx,
        abs_balanced_of(y) <= my,
        mx + my <= Q / 2,
    ensures
        abs_balanced_of(fadd(x, y)) <= mx + my,
{
    lemma_balanced_fmod(x);
    lemma_balanced_fmod(y);
    lemma_fmod_add(balanced_of(x), balanced_of(y));
    lemma_fmod_balanced(balanced_of(x) + balanced_of(y));
}

/// The `k`-th coefficient of an unreduced product, over the first `n` indices of the
/// left factor, computed on balanced representatives.
pub open spec fn conv_bal_sum(a: Seq<nat>, b: Seq<nat>, k: int, n: int) -> int
    decreases n,
{
    if n <= 0 {
        0
    } else {
        conv_bal_sum(a, b, k, n - 1) + (if 0 <= k - (n - 1) < D {
            balanced_of(a[n - 1]) * balanced_of(b[k - (n - 1)])
        } else {
            0
        })
    }
}

/// The product coefficient on balanced representatives is congruent to the one on
/// residues, and it is at most `n ma mb` in magnitude.
proof fn lemma_conv_bal(a: Seq<nat>, b: Seq<nat>, k: int, n: int, ma: nat, mb: nat)
    requires
        ring_wf(a),
        ring_wf(b),
        0 <= n <= D,
        forall|i: int| 0 <= i < D ==> abs_balanced_of(#[trigger] a[i]) <= ma,
        forall|i: int| 0 <= i < D ==> abs_balanced_of(#[trigger] b[i]) <= mb,
    ensures
        fmod(conv_sum(a, b, k, n)) == fmod(conv_bal_sum(a, b, k, n)),
        -(n * (ma * mb)) <= conv_bal_sum(a, b, k, n) <= n * (ma * mb),
    decreases n,
{
    if n > 0 {
        lemma_conv_bal(a, b, k, n - 1, ma, mb);
        let p = conv_sum(a, b, k, n - 1);
        let pb = conv_bal_sum(a, b, k, n - 1);
        let m = ma * mb;
        let j = k - (n - 1);
        if 0 <= j < D {
            let x = a[n - 1];
            let y = b[j];
            let bx = balanced_of(x);
            let by = balanced_of(y);
            lemma_balanced_fmod(x);
            lemma_balanced_fmod(y);
            lemma_fmod_mul(bx, by);
            assert(fmod((x * y) as int) == fmod(bx * by));
            lemma_fmod_add(p, (x * y) as int);
            lemma_fmod_add(pb, bx * by);
            assert(abs_balanced_of(x) <= ma && abs_balanced_of(y) <= mb);
            assert(-(ma * mb) <= bx * by <= ma * mb) by (nonlinear_arith)
                requires
                    -ma <= bx <= ma,
                    -mb <= by <= mb,
            ;
            assert((n - 1) * m + m == n * m) by (nonlinear_arith);
            assert(fmod(p + x * y) == fmod(fmod(p) as int + fmod((x * y) as int) as int));
            assert(fmod(pb + bx * by) == fmod(fmod(pb) as int + fmod(bx * by) as int));
        } else {
            assert((n - 1) * m + m == n * m) by (nonlinear_arith);
            assert(0 <= m) by (nonlinear_arith);
        }
    }
}

/// Every residue has balanced magnitude at most `(q - 1) / 2`.
pub proof fn lemma_abs_balanced_half(x: nat)
    requires
        x < Q,
    ensures
        abs_balanced_of(x) <= Q / 2,
{
}

/// The balanced combination that forms coefficient `i` of a reduced product, over the
/// first `n` coefficients of the left factor, reads each of them at most twice: at most
/// `2 n ma mb` in magnitude.
proof fn lemma_reduced_bal_bound(a: Seq<nat>, b: Seq<nat>, i: int, n: int, ma: nat, mb: nat)
    requires
        ring_wf(a),
        ring_wf(b),
        0 <= i < D,
        0 <= n <= D,
        forall|k: int| 0 <= k < D ==> abs_balanced_of(#[trigger] a[k]) <= ma,
        forall|k: int| 0 <= k < D ==> abs_balanced_of(#[trigger] b[k]) <= mb,
    ensures
        i < 27 ==> -(2 * n * (ma * mb)) <= conv_bal_sum(a, b, i, n) - conv_bal_sum(a, b, i + 54, n) + conv_bal_sum(
            a,
            b,
            i + 81,
            n,
        ) <= 2 * n * (ma * mb),
        i >= 27 ==> -(2 * n * (ma * mb)) <= conv_bal_sum(a, b, i, n) - conv_bal_sum(a, b, i + 27, n) <= 2 * n * (ma
            * mb),
    decreases n,
{
    if n > 0 {
        lemma_reduced_bal_bound(a, b, i, n - 1, ma, mb);
        let j = n - 1;
        let x = balanced_of(a[j]);
        assert(abs_balanced_of(a[j]) <= ma);
        assert(-(ma as int) <= x <= ma);
        let m = ma * mb;
        assert(2 * (n - 1) * m + 2 * m == 2 * n * m) by (nonlinear_arith);
        let t1: int = if 0 <= i - j < D { balanced_of(b[i - j]) } else { 0 };
        if i < 27 {
            let t2: int = if 0 <= i + 54 - j < D { balanced_of(b[i + 54 - j]) } else { 0 };
            let t3: int = if 0 <= i + 81 - j < D { balanced_of(b[i + 81 - j]) } else { 0 };
            if 0 <= i - j < D {
                assert(abs_balanced_of(b[i - j]) <= mb);
            }
            if 0 <= i + 54 - j < D {
                assert(abs_balanced_of(b[i + 54 - j]) <= mb);
            }
            if 0 <= i + 81 - j < D {
                assert(abs_balanced_of(b[i + 81 - j]) <= mb);
            }
            let d = t1 - t2 + t3;
            assert(-(2 * mb) <= d <= 2 * mb);
            assert(x * t1 - x * t2 + x * t3 == x * d) by (nonlinear_arith)
                requires
                    d == t1 - t2 + t3,
            ;
            assert(-(2 * m) <= x * d <= 2 * m) by (nonlinear_arith)
                requires
                    -(ma as int) <= x <= ma,
                    -(2 * mb) <= d <= 2 * mb,
                    m == ma * mb,
            ;
        } else {
            let t2: int = if 0 <= i + 27 - j < D { balanced_of(b[i + 27 - j]) } else { 0 };
            if 0 <= i - j < D {
                assert(abs_balanced_of(b[i - j]) <= mb);
            }
            if 0 <= i + 27 - j < D {
                assert(abs_balanced_of(b[i + 27 - j]) <= mb);
            }
            let d = t1 - t2;
            assert(-(2 * mb) <= d <= 2 * mb);
            assert(x * t1 - x * t2 == x * d) by (nonlinear_arith)
                requires
                    d == t1 - t2,
            ;
            assert(-(2 * m) <= x * d <= 2 * m) by (nonlinear_arith)
                requires
                    -(ma as int) <= x <= ma,
                    -(2 * mb) <= d <= 2 * mb,
                    m == ma * mb,
            ;
        }
    }
}

/// A product in `R_F` of small elements is small: since `X^81 = 1` and
/// `X^54 = -X^27 - 1`, each coefficient of the product reads each coefficient of the
/// left factor at most twice, so it is at most `2 * 54 ma mb = 108 ma mb`.
pub proof fn lemma_ring_mul_norm(a: Seq<nat>, b: Seq<nat>, ma: nat, mb: nat)
    requires
        ring_wf(a),
        ring_wf(b),
        forall|i: int| 0 <= i < D ==> abs_balanced_of(#[trigger] a[i]) <= ma,
        forall|i: int| 0 <= i < D ==> abs_balanced_of(#[trigger] b[i]) <= mb,
        108 * (ma * mb) <= Q / 2,
    ensures
        forall|i: int| 0 <= i < D ==> abs_balanced_of(#[trigger] ring_mul(a, b)[i]) <= 108 * (ma * mb),
{
    let m = ma * mb;
    assert forall|i: int| 0 <= i < D implies abs_balanced_of(#[trigger] ring_mul(a, b)[i]) <= 108 * m by {
        lemma_conv_bal(a, b, i, 54, ma, mb);
        lemma_conv_bal(a, b, i + 27, 54, ma, mb);
        lemma_conv_bal(a, b, i + 54, 54, ma, mb);
        lemma_conv_bal(a, b, i + 81, 54, ma, mb);
        lemma_reduced_bal_bound(a, b, i, 54, ma, mb);
        assert(2 * 54 * m == 108 * m);
        let p = |k: int| conv_sum(a, b, k, 54);
        let pb = |k: int| conv_bal_sum(a, b, k, 54);
        if i < 27 {
            lemma_fmod_combine(p(i), p(i + 54), p(i + 81), pb(i), pb(i + 54), pb(i + 81));
            lemma_fmod_balanced(pb(i) - pb(i + 54) + pb(i + 81));
        } else {
            lemma_fmod_combine(p(i), p(i + 27), 0, pb(i), pb(i + 27), 0);
            lemma_fmod_balanced(pb(i) - pb(i + 27));
        }
    }
}

} // verus!
