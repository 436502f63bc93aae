//! The rotation matrix `rot(a)` of a ring element: column `j` is `cf(a * X^j mod Phi)`,
//! so that `rot(a) cf(b) = cf(a b)`.

use vstd::prelude::*;

use crate::bar::mat_view;
use crate::fp::{dot, fmod, fmul, fp_seq, lemma_fmod_add, lemma_fmod_small, lemma_fp_lt_q, Fp};
use crate::ring::{
    law_ring_mul_distrib, law_ring_mul_monomial, law_ring_mul_scale, phi_reduce, ring_add, ring_monomial, ring_mul,
    ring_scale, ring_wf, shifted, RingElem, D,
};

verus! {

broadcast use {lemma_fp_lt_q, lemma_fmod_small};

/// The `d x d` rotation matrix with `rot(a)[row][col] = (a * X^col mod Phi)_row`.
pub fn rot(a: &RingElem) -> (m: [[Fp; D]; D])
    ensures
        forall|row: int, col: int|
            0 <= row < D && 0 <= col < D ==> mat_view(m)[row][col] == phi_reduce(
                shifted(a@, col),
            )[row],
{
    let mut cols: Vec<RingElem> = Vec::new();
    let mut col: usize = 0;
    while col < D
        invariant
            col <= D,
            cols@.len() == col,
            forall|c: int| 0 <= c < col ==> (#[trigger] cols@[c])@ == phi_reduce(shifted(a@, c)),
        decreases D - col,
    {
        cols.push(a.mul_x_pow(col));
        col = col + 1;
    }
    let mut m = [[Fp::zero();D];D];
    let mut row: usize = 0;
    while row < D
        invariant
            row <= D,
            cols@.len() == D,
            forall|c: int| 0 <= c < D ==> (#[trigger] cols@[c])@ == phi_reduce(shifted(a@, c)),
            forall|r: int, c: int|
                0 <= r < row && 0 <= c < D ==> (#[trigger] m@[r]@[c])@ == phi_reduce(
                    shifted(a@, c),
                )[r],
        decreases D - row,
    {
        let mut line = [Fp::zero();D];
        let mut c: usize = 0;
        while c < D
            invariant
                c <= D,
                row < D,
                cols@.len() == D,
                forall|c2: int| 0 <= c2 < D ==> (#[trigger] cols@[c2])@ == phi_reduce(shifted(a@, c2)),
                forall|c2: int|
                    0 <= c2 < c ==> (#[trigger] line@[c2])@ == phi_reduce(shifted(a@, c2))[row as int],
            decreases D - c,
        {
            line[c] = cols[c].coeff(row);
            c = c + 1;
        }
        m[row] = line;
        row = row + 1;
    }
    m
}

/// Apply a `d x d` matrix to a coefficient vector: `(M v)_row = sum_col M[row][col] v[col]`.
pub fn matvec(m: &[[Fp; D]; D], v: &[Fp; D]) -> (r: [Fp; D])
    ensures
        forall|row: int|
            0 <= row < D ==> fp_seq(r@)[row] == fmod(
                dot(mat_view(*m)[row], fp_seq(v@), D as int),
            ),
{
    let mut out = [Fp::zero();D];
    let mut row: usize = 0;
    while row < D
        invariant
            row <= D,
            forall|r2: int|
                0 <= r2 < row ==> (#[trigger] out@[r2])@ == fmod(
                    dot(mat_view(*m)[r2], fp_seq(v@), D as int),
                ),
        decreases D - row,
    {
        let mrow = m[row];
        let ghost mr = fp_seq(mrow@);
        let mut acc = Fp::zero();
        let mut col: usize = 0;
        while col < D
            invariant
                col <= D,
                mr == fp_seq(mrow@),
                acc@ == fmod(dot(mr, fp_seq(v@), col as int)),
            decreases D - col,
        {
            let t = mrow[col] * v[col];
            proof {
                lemma_fmod_add(dot(mr, fp_seq(v@), col as int), (mr[col as int] * fp_seq(v@)[col as int]) as int);
                lemma_fmod_small(t@);
            }
            acc = acc + t;
            col = col + 1;
        }
        assert(mat_view(*m)[row as int] == mr);
        out[row] = acc;
        row = row + 1;
    }
    out
}

/// The first `n` coefficients of `b`, the rest zero.
pub open spec fn ring_prefix(b: Seq<nat>, n: int) -> Seq<nat> {
    Seq::new(D as nat, |i: int| if i < n { b[i] } else { 0nat })
}

/// Row `row` of the rotation matrix of `a`.
pub open spec fn rot_row(a: Seq<nat>, row: int) -> Seq<nat> {
    Seq::new(D as nat, |col: int| phi_reduce(shifted(a, col))[row])
}

/// The product with a prefix of `b` is the rotation matrix applied to that prefix.
proof fn lemma_rot_prefix(a: Seq<nat>, b: Seq<nat>, n: int, row: int)
    requires
        ring_wf(a),
        ring_wf(b),
        0 <= n <= D,
        0 <= row < D,
    ensures
        ring_mul(a, ring_prefix(b, n))[row] == fmod(dot(rot_row(a, row), b, n)),
    decreases n,
{
    if n == 0 {
        assert(ring_prefix(b, 0) =~= ring_monomial(0, 0));
        law_ring_mul_monomial(a, 0, 0);
        assert(fmul(a[row], 0) == 0);
    } else {
        let m = n - 1;
        lemma_rot_prefix(a, b, m, row);
        let e = ring_monomial(b[m], m);
        assert(ring_prefix(b, n) =~= ring_add(ring_prefix(b, m), e));
        law_ring_mul_distrib(a, ring_prefix(b, m), e);
        law_ring_mul_monomial(a, m, b[m]);
        assert(e =~= ring_scale(ring_monomial(1, m), b[m]));
        law_ring_mul_scale(a, ring_monomial(1, m), b[m]);
        let prev = dot(rot_row(a, row), b, m);
        let t = rot_row(a, row)[m] as int * b[m] as int;
        lemma_fmod_add(prev, t);
        crate::fp::lemma_fmod_fmod(prev);
        assert(ring_mul(a, ring_monomial(1, m))[row] == rot_row(a, row)[m]);
    }
}

/// The rotation matrix realizes multiplication: `rot(a) cf(b) = cf(a b)`.
pub proof fn law_rot_realizes_mul(a: Seq<nat>, b: Seq<nat>, row: int)
    requires
        ring_wf(a),
        ring_wf(b),
        0 <= row < D,
    ensures
        fmod(dot(rot_row(a, row), b, D as int)) == ring_mul(a, b)[row],
{
    lemma_rot_prefix(a, b, D as int, row);
    assert(ring_prefix(b, D as int) =~= b);
}

} // verus!
