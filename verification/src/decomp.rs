//! Base-`b` balanced decomposition.
//!
//! A field vector whose balanced coordinates satisfy `|v| < b^k` splits into `k`
//! vectors `z_0, ..., z_{k-1}` with `z = sum_i b^i z_i` and every coordinate of
//! every `z_i` of magnitude below `b`: the digits of `|v|` in base `b`, carrying the
//! sign of `v`.

use vstd::arithmetic::div_mod::*;
use vstd::arithmetic::power::*;
use vstd::prelude::*;

use crate::error::RingError;
use crate::fp::{
    abs_balanced_of, balanced_of, fmod, fp_seq, lemma_fmod_add, lemma_fmod_mul,
    lemma_fmod_multiple, lemma_fmod_small, lemma_fp_lt_q, Fp,
};
use crate::Q;

verus! {

broadcast use {lemma_fp_lt_q, lemma_fmod_small};

/// The residue of digit `i` of a coordinate with residue `x`, in base `b`.
pub open spec fn split_digit(x: nat, b: nat, i: nat) -> nat {
    let d = (abs_balanced_of(x) as int / pow(b as int, i)) % (b as int);
    if balanced_of(x) < 0 {
        fmod(-d)
    } else {
        fmod(d)
    }
}

/// Column `col` of a list of parts, weighted in Horner form from part `lo` up:
/// `sum_{i >= lo} b^(i - lo) parts[i][col]`.
pub open spec fn horner(parts: Seq<Seq<nat>>, b: nat, col: int, lo: int) -> int
    decreases parts.len() - lo,
{
    if lo < 0 || lo >= parts.len() {
        0
    } else {
        parts[lo][col] + b * horner(parts, b, col, lo + 1)
    }
}

/// The residue views of a list of field vectors.
pub open spec fn parts_view(parts: Seq<Vec<Fp>>) -> Seq<Seq<nat>> {
    parts.map_values(|p: Vec<Fp>| fp_seq(p@))
}

/// Every digit has balanced magnitude below the base.
pub proof fn lemma_split_digit_small(x: nat, b: nat, i: nat)
    requires
        x < Q,
        b >= 2,
    ensures
        abs_balanced_of(split_digit(x, b, i)) < b,
{
    let m = abs_balanced_of(x) as int;
    let p = pow(b as int, i);
    lemma_pow_positive(b as int, i);
    lemma_div_pos_is_pos(m, p);
    lemma_mod_bound(m / p, b as int);
    let d = (m / p) % (b as int);
    lemma_div_is_ordered_by_denominator(m, 1, p);
    lemma_mod_decreases((m / p) as nat, b);
    assert(d <= m);
    assert(m <= Q / 2);
    if balanced_of(x) < 0 {
        if d == 0 {
            lemma_fmod_small(0);
        } else {
            lemma_fmod_multiple(-d, 1);
            lemma_fmod_small((Q - d) as nat);
        }
    } else {
        lemma_fmod_small(d as nat);
    }
}

/// The parts of a decomposition recompose to the coordinate they came from.
pub proof fn lemma_split_recompose(x: nat, b: nat, k: nat, parts: Seq<Seq<nat>>, col: int)
    requires
        x < Q,
        b >= 2,
        (abs_balanced_of(x) as int) < pow(b as int, k),
        parts.len() == k,
        forall|i: int| 0 <= i < k ==> #[trigger] parts[i][col] == split_digit(x, b, i as nat),
    ensures
        fmod(horner(parts, b, col, 0)) == x,
{
    lemma_split_recompose_from(x, b, k, parts, col, 0);
    let m = abs_balanced_of(x) as int;
    assert(pow(b as int, 0) == 1) by {
        lemma_pow0(b as int);
    }
    assert(m / pow(b as int, 0) == m);
    if balanced_of(x) < 0 {
        assert((-1int) * m == -m);
        assert(-m == x - Q);
        lemma_fmod_multiple(x as int, -1);
    } else {
        assert(1int * m == m);
    }
}

/// Horner from part `lo` recomposes `sign * (|v| / b^lo)`.
proof fn lemma_split_recompose_from(x: nat, b: nat, k: nat, parts: Seq<Seq<nat>>, col: int, lo: nat)
    requires
        x < Q,
        b >= 2,
        lo <= k,
        (abs_balanced_of(x) as int) < pow(b as int, k),
        parts.len() == k,
        forall|i: int| 0 <= i < k ==> #[trigger] parts[i][col] == split_digit(x, b, i as nat),
    ensures
        fmod(horner(parts, b, col, lo as int)) == fmod(
            (if balanced_of(x) < 0 { -1int } else { 1int }) * (abs_balanced_of(x) as int / pow(
                b as int,
                lo,
            )),
        ),
    decreases k - lo,
{
    let m = abs_balanced_of(x) as int;
    let s: int = if balanced_of(x) < 0 {
        -1
    } else {
        1
    };
    let p = pow(b as int, lo);
    lemma_pow_positive(b as int, lo);
    if lo == k {
        lemma_basic_div(m, p);
        lemma_fmod_small(0);
        assert(s * 0 == 0);
    } else {
        lemma_split_recompose_from(x, b, k, parts, col, lo + 1);
        let h = horner(parts, b, col, lo as int + 1);
        let q1 = m / pow(b as int, lo + 1);
        let d = (m / p) % (b as int);
        assert(pow(b as int, lo + 1) == b * p) by {
            reveal(pow);
        }
        lemma_div_denominator(m, p, b as int);
        assert(q1 == (m / p) / (b as int)) by {
            vstd::arithmetic::mul::lemma_mul_is_commutative(b as int, p);
        }
        lemma_fundamental_div_mod(m / p, b as int);
        assert(m / p == b * q1 + d);
        // parts[lo][col] == fmod(s * d)
        assert(parts[lo as int][col] == fmod(s * d));
        // fmod(h) == fmod(s * q1)
        lemma_fmod_mul(b as int, h);
        lemma_fmod_mul(b as int, s * q1);
        lemma_fmod_add(s * d, b * h);
        lemma_fmod_add(s * d, b * (s * q1));
        lemma_fmod_add(fmod(s * d) as int, b * h);
        assert(s * d + b * (s * q1) == s * (m / p)) by (nonlinear_arith)
            requires
                m / p == b * q1 + d,
        ;
    }
}

/// Decompose `z` into `k` low-norm vectors in base `b`.
///
/// Returns `[z_0, ..., z_{k-1}]` where `z_0` carries weight `b^0`. Fails with
/// `NormBound` at the first coordinate whose magnitude does not fit in `k` digits.
pub fn split_b(z: &[Fp], b: u64, k: usize) -> (r: Result<Vec<Vec<Fp>>, RingError>)
    requires
        b >= 2,
        pow(b as int, k as nat) <= u64::MAX,
    ensures
        (forall|c: int| 0 <= c < z.len() ==> (abs_balanced_of(#[trigger] z@[c]@) as int) < pow(
            b as int,
            k as nat,
        )) ==> (r matches Ok(parts) && parts.len() == k && (forall|i: int|
            0 <= i < k ==> (#[trigger] parts@[i]).len() == z.len()) && (forall|i: int, c: int|
            0 <= i < k && 0 <= c < z.len() ==> (#[trigger] parts@[i]@[c])@ == split_digit(
                z@[c]@,
                b as nat,
                i as nat,
            ))),
        r is Ok ==> (forall|c: int| 0 <= c < z.len() ==> (abs_balanced_of(#[trigger] z@[c]@) as int) < pow(
            b as int,
            k as nat,
        )),
        r matches Err(e) ==> (e matches RingError::NormBound { got, bound } && bound == pow(
            b as int,
            k as nat,
        ) && exists|c: int|
            0 <= c < z.len() && got == abs_balanced_of(#[trigger] z@[c]@) && got >= bound && (
            forall|c2: int| 0 <= c2 < c ==> (abs_balanced_of(#[trigger] z@[c2]@) as int) < bound)),
{
    let mut bound: u64 = 1;
    let mut t: usize = 0;
    proof {
        lemma_pow0(b as int);
    }
    while t < k
        invariant
            t <= k,
            b >= 2,
            bound == pow(b as int, t as nat),
            pow(b as int, k as nat) <= u64::MAX,
        decreases k - t,
    {
        proof {
            lemma_pow_increases(b as nat, (t + 1) as nat, k as nat);
            reveal(pow);
            assert(pow(b as int, (t + 1) as nat) == b * pow(b as int, t as nat));
            assert(bound * b == b * bound) by (nonlinear_arith);
        }
        bound = bound * b;
        t = t + 1;
    }
    let mut c: usize = 0;
    while c < z.len()
        invariant
            c <= z.len(),
            bound == pow(b as int, k as nat),
            forall|c2: int| 0 <= c2 < c ==> (abs_balanced_of(#[trigger] z@[c2]@) as int) < bound,
        decreases z.len() - c,
    {
        let mag = z[c].abs_balanced();
        if mag >= bound {
            return Err(RingError::NormBound { got: mag, bound });
        }
        c = c + 1;
    }
    let mut parts: Vec<Vec<Fp>> = Vec::new();
    let mut pw: u64 = 1;
    let mut i: usize = 0;
    while i < k
        invariant
            i <= k,
            b >= 2,
            pow(b as int, k as nat) <= u64::MAX,
            i < k ==> pw == pow(b as int, i as nat),
            forall|c2: int| 0 <= c2 < z.len() ==> (abs_balanced_of(#[trigger] z@[c2]@) as int) < pow(b as int, k as nat),
            parts@.len() == i,
            forall|t2: int| 0 <= t2 < i ==> (#[trigger] parts@[t2]).len() == z.len(),
            forall|t2: int, c2: int|
                0 <= t2 < i && 0 <= c2 < z.len() ==> (#[trigger] parts@[t2]@[c2])@ == split_digit(
                    z@[c2]@,
                    b as nat,
                    t2 as nat,
                ),
        decreases k - i,
    {
        proof {
            lemma_pow_positive(b as int, i as nat);
        }
        let mut part: Vec<Fp> = Vec::new();
        let mut col: usize = 0;
        while col < z.len()
            invariant
                col <= z.len(),
                i < k,
                b >= 2,
                pw == pow(b as int, i as nat),
                pw > 0,
                part@.len() == col,
                forall|c2: int|
                    0 <= c2 < col ==> (#[trigger] part@[c2])@ == split_digit(
                        z@[c2]@,
                        b as nat,
                        i as nat,
                    ),
            decreases z.len() - col,
        {
            let v = z[col].balanced();
            let mag = z[col].abs_balanced();
            let digit = (mag / pw) % b;
            proof {
                lemma_mod_bound((mag / pw) as int, b as int);
                lemma_div_is_ordered_by_denominator(mag as int, 1, pw as int);
                lemma_mod_decreases((mag / pw) as nat, b as nat);
            }
            let sign: i64 = if v < 0 {
                -1
            } else {
                1
            };
            let d = Fp::from_i64(sign * (digit as i64));
            part.push(d);
            col = col + 1;
        }
        parts.push(part);
        if i + 1 < k {
            proof {
                lemma_pow_increases(b as nat, (i + 1) as nat, k as nat);
                reveal(pow);
                assert(pow(b as int, (i + 1) as nat) == b * pow(b as int, i as nat));
                assert(pw * b == b * pw) by (nonlinear_arith);
            }
            pw = pw * b;
        }
        i = i + 1;
    }
    Ok(parts)
}

/// Reconstruct `z = sum_i b^i z_i` from its base-`b` parts (Horner's rule).
pub fn recompose_b(parts: &[Vec<Fp>], b: u64) -> (r: Vec<Fp>)
    requires
        forall|i: int| 0 <= i < parts.len() ==> (#[trigger] parts@[i]).len() >= parts@[0].len(),
    ensures
        parts.len() == 0 ==> r.len() == 0,
        parts.len() > 0 ==> r.len() == parts@[0].len() && forall|c: int|
            0 <= c < r.len() ==> (#[trigger] r@[c])@ == fmod(
                horner(parts_view(parts@), b as nat, c, 0),
            ),
{
    if parts.len() == 0 {
        return Vec::new();
    }
    let len = parts[0].len();
    let ghost pv = parts_view(parts@);
    let mut out: Vec<Fp> = Vec::new();
    let mut c: usize = 0;
    while c < len
        invariant
            c <= len,
            out@.len() == c,
            forall|c2: int| 0 <= c2 < c ==> (#[trigger] out@[c2])@ == 0,
        decreases len - c,
    {
        out.push(Fp::zero());
        c = c + 1;
    }
    let b_fp = Fp::new(b);
    let mut i: usize = parts.len();
    proof {
        lemma_fmod_small(0);
    }
    while i > 0
        invariant
            0 <= i <= parts.len(),
            parts.len() > 0,
            len == parts@[0].len(),
            out@.len() == len,
            pv == parts_view(parts@),
            b_fp@ == fmod(b as int),
            forall|i2: int| 0 <= i2 < parts.len() ==> (#[trigger] parts@[i2]).len() >= parts@[0].len(),
            forall|c2: int| 0 <= c2 < len ==> (#[trigger] out@[c2])@ == fmod(horner(pv, b as nat, c2, i as int)),
        decreases i,
    {
        i = i - 1;
        let part = &parts[i];
        let mut col: usize = 0;
        while col < len
            invariant
                col <= len,
                i < parts.len(),
                len == parts@[0].len(),
                part@.len() >= len,
                part == &parts@[i as int],
                out@.len() == len,
                pv == parts_view(parts@),
                b_fp@ == fmod(b as int),
                forall|c2: int| 0 <= c2 < col ==> (#[trigger] out@[c2])@ == fmod(horner(pv, b as nat, c2, i as int)),
                forall|c2: int| col <= c2 < len ==> (#[trigger] out@[c2])@ == fmod(horner(pv, b as nat, c2, i + 1)),
            decreases len - col,
        {
            let v = out[col] * b_fp + part[col];
            proof {
                let h = horner(pv, b as nat, col as int, i + 1);
                assert(pv[i as int][col as int] == part@[col as int]@);
                lemma_fmod_mul(h, b as int);
                lemma_fmod_add(h * b, part@[col as int]@ as int);
                lemma_fmod_add(fmod(h * b) as int, part@[col as int]@ as int);
                assert(horner(pv, b as nat, col as int, i as int) == pv[i as int][col as int] + b * h);
                assert(h * b == b * h) by (nonlinear_arith);
            }
            out.set(col, v);
            col = col + 1;
        }
    }
    out
}

/// The `k` base-`b` digit vectors of `z`.
pub open spec fn split_parts(z: Seq<nat>, b: nat, k: nat) -> Seq<Seq<nat>> {
    Seq::new(k, |i: int| Seq::new(z.len(), |c: int| split_digit(z[c], b, i as nat)))
}

/// Decomposing a vector whose coordinates fit in `k` digits and recomposing the parts
/// gives the vector back, and every part is low-norm: each digit's balanced magnitude is
/// below the base.
pub proof fn law_split_recompose(z: Seq<nat>, b: nat, k: nat)
    requires
        b >= 2,
        forall|c: int| 0 <= c < z.len() ==> #[trigger] z[c] < Q && (abs_balanced_of(z[c]) as int) < pow(b as int, k),
    ensures
        forall|c: int| 0 <= c < z.len() ==> #[trigger] fmod(horner(split_parts(z, b, k), b, c, 0)) == z[c],
        forall|i: int, c: int|
            0 <= i < k && 0 <= c < z.len() ==> abs_balanced_of(#[trigger] split_parts(z, b, k)[i][c]) < b,
{
    let parts = split_parts(z, b, k);
    assert forall|c: int| 0 <= c < z.len() implies #[trigger] fmod(horner(parts, b, c, 0)) == z[c] by {
        assert forall|i: int| 0 <= i < k implies #[trigger] parts[i][c] == split_digit(z[c], b, i as nat) by {}
        lemma_split_recompose(z[c], b, k, parts, c);
    }
    assert forall|i: int, c: int| 0 <= i < k && 0 <= c < z.len() implies abs_balanced_of(
        #[trigger] parts[i][c],
    ) < b by {
        lemma_split_digit_small(z[c], b, i as nat);
    }
}

} // verus!
