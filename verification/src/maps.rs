//! Coefficient maps and the SuperNeo embedding.
//!
//! `embed_vector` splits a field vector of length `54 n` into `n` consecutive
//! blocks, each the coefficient vector of one ring element; `bar_matrix_row`
//! applies the bar transform to every block of a matrix row; `mbar_row_dot_z`
//! is the ring inner product whose constant term recovers a field inner product.

use vstd::prelude::*;

use crate::bar::{bar_ring, bar_spec};
use crate::error::RingError;
use crate::fp::{dot, fmod, fp_seq, lemma_fp_lt_q, Fp};
use crate::ring::{lemma_ring_wf, ring_dot, ring_seq, RingElem, D};

verus! {

broadcast use {lemma_fp_lt_q, lemma_ring_wf};

/// The `i`-th block of 54 consecutive entries.
pub open spec fn block(z: Seq<nat>, i: int) -> Seq<nat> {
    z.subrange(i * 54, i * 54 + 54)
}

/// The embedding of a field vector into ring elements, block by block.
pub open spec fn embed_spec(z: Seq<nat>) -> Seq<Seq<nat>> {
    Seq::new(z.len() / 54, |i: int| block(z, i))
}

/// `cf(a)`: the coefficient vector of a ring element.
pub fn cf(a: &RingElem) -> (r: &[Fp; D])
    ensures
        fp_seq(r@) == a@,
{
    a.coeffs()
}

/// `cf^-1`: the ring element whose coefficient vector is `c`.
pub fn cf_inv(c: [Fp; D]) -> (r: RingElem)
    ensures
        r@ == fp_seq(c@),
{
    RingElem::from_coeffs(c)
}

/// `ct(a) = c_0`: the constant term.
pub fn ct(a: &RingElem) -> (r: Fp)
    ensures
        r@ == a@[0],
{
    a.ct()
}

/// Copy the block of 54 entries of `z` starting at `start`.
fn copy_block(z: &[Fp], start: usize) -> (c: [Fp; D])
    requires
        start + 54 <= z.len(),
    ensures
        fp_seq(c@) == fp_seq(z@).subrange(start as int, start + 54),
{
    let mut c = [Fp::zero();D];
    let mut l: usize = 0;
    while l < D
        invariant
            l <= D,
            start + 54 <= z.len(),
            forall|t: int| 0 <= t < l ==> (#[trigger] c@[t])@ == z@[start + t]@,
        decreases D - l,
    {
        c[l] = z[start + l];
        l = l + 1;
    }
    assert(fp_seq(c@) =~= fp_seq(z@).subrange(start as int, start + 54));
    c
}

/// The embedding of a field vector into a ring vector.
///
/// Fails with `Misaligned` exactly when the length is not a multiple of 54.
pub fn embed_vector(z: &[Fp]) -> (r: Result<Vec<RingElem>, RingError>)
    ensures
        z.len() % 54 != 0 ==> r == Err::<Vec<RingElem>, RingError>(RingError::Misaligned(z.len())),
        z.len() % 54 == 0 ==> (r matches Ok(v) && ring_seq(v@) == embed_spec(fp_seq(z@))),
{
    if z.len() % D != 0 {
        return Err(RingError::Misaligned(z.len()));
    }
    let n = z.len() / D;
    let mut out: Vec<RingElem> = Vec::new();
    let mut i: usize = 0;
    while i < n
        invariant
            i <= n,
            n == z.len() / 54,
            z.len() % 54 == 0,
            out@.len() == i,
            forall|t: int| 0 <= t < i ==> (#[trigger] out@[t])@ == block(fp_seq(z@), t),
        decreases n - i,
    {
        let c = copy_block(z, i * D);
        out.push(RingElem::from_coeffs(c));
        i = i + 1;
    }
    assert(ring_seq(out@) =~= embed_spec(fp_seq(z@)));
    Ok(out)
}

/// The bar-lift of one matrix row: every block of 54 entries goes through the
/// bar transform, yielding one ring element per block.
pub fn bar_matrix_row(row: &[Fp]) -> (r: Result<Vec<RingElem>, RingError>)
    ensures
        row.len() % 54 != 0 ==> r == Err::<Vec<RingElem>, RingError>(
            RingError::Misaligned(row.len()),
        ),
        row.len() % 54 == 0 ==> (r matches Ok(v) && ring_seq(v@) == Seq::new(
            (row.len() / 54) as nat,
            |i: int| bar_spec(block(fp_seq(row@), i)),
        )),
{
    if row.len() % D != 0 {
        return Err(RingError::Misaligned(row.len()));
    }
    let n = row.len() / D;
    let mut out: Vec<RingElem> = Vec::new();
    let mut i: usize = 0;
    while i < n
        invariant
            i <= n,
            n == row.len() / 54,
            row.len() % 54 == 0,
            out@.len() == i,
            forall|t: int| 0 <= t < i ==> (#[trigger] out@[t])@ == bar_spec(block(fp_seq(row@), t)),
        decreases n - i,
    {
        let c = copy_block(row, i * D);
        out.push(bar_ring(&c));
        i = i + 1;
    }
    assert(ring_seq(out@) =~= Seq::new(n as nat, |i: int| bar_spec(block(fp_seq(row@), i))));
    Ok(out)
}

/// The ring inner product `sum_i bar_row[i] * z[i]`.
pub fn mbar_row_dot_z(bar_row: &[RingElem], z: &[RingElem]) -> (r: RingElem)
    requires
        bar_row.len() == z.len(),
    ensures
        r@ == ring_dot(ring_seq(bar_row@), ring_seq(z@), z.len() as int),
{
    let mut acc = RingElem::zero();
    let mut i: usize = 0;
    while i < z.len()
        invariant
            i <= z.len(),
            bar_row.len() == z.len(),
            acc@ == ring_dot(ring_seq(bar_row@), ring_seq(z@), i as int),
        decreases z.len() - i,
    {
        acc = acc + bar_row[i] * z[i];
        i = i + 1;
    }
    acc
}

/// The dot product over a prefix of whole blocks plus one more block.
proof fn lemma_dot_block(a: Seq<nat>, b: Seq<nat>, i: int, j: int)
    requires
        0 <= i,
        0 <= j <= 54,
        i * 54 + 54 <= a.len(),
        i * 54 + 54 <= b.len(),
    ensures
        dot(a, b, i * 54 + j) == dot(a, b, i * 54) + dot(block(a, i), block(b, i), j),
    decreases j,
{
    if j > 0 {
        lemma_dot_block(a, b, i, j - 1);
        assert(block(a, i)[j - 1] == a[i * 54 + j - 1]);
        assert(block(b, i)[j - 1] == b[i * 54 + j - 1]);
    }
}

/// The ring inner product of the barred blocks of a row with the blocks of `z` has, as
/// its constant term, the field inner product of the row with `z`: `Mz = ct(Mbar z)`
/// row by row.
pub proof fn law_bar_matrix_vector(row: Seq<nat>, z: Seq<nat>, n: int)
    requires
        0 <= n,
        row.len() == 54 * n,
        z.len() == 54 * n,
        forall|i: int| 0 <= i < row.len() ==> #[trigger] row[i] < crate::Q,
        forall|i: int| 0 <= i < z.len() ==> #[trigger] z[i] < crate::Q,
    ensures
        ring_dot(Seq::new(n as nat, |i: int| bar_spec(block(row, i))), Seq::new(n as nat, |i: int| block(z, i)), n)[0]
            == fmod(dot(row, z, 54 * n)),
    decreases n,
{
    let bars = Seq::new(n as nat, |i: int| bar_spec(block(row, i)));
    let zs = Seq::new(n as nat, |i: int| block(z, i));
    if n == 0 {
        assert(ring_dot(bars, zs, 0) == crate::ring::ring_zero());
    } else {
        let m = n - 1;
        let row2 = row.subrange(0, 54 * m);
        let z2 = z.subrange(0, 54 * m);
        law_bar_matrix_vector(row2, z2, m);
        let bars2 = Seq::new(m as nat, |i: int| bar_spec(block(row2, i)));
        let zs2 = Seq::new(m as nat, |i: int| block(z2, i));
        assert forall|i: int| 0 <= i < m implies #[trigger] bars2[i] == bars[i] && zs2[i] == zs[i] by {
            assert(block(row2, i) =~= block(row, i));
            assert(block(z2, i) =~= block(z, i));
        }
        lemma_ring_dot_prefix(bars2, zs2, bars, zs, m);
        lemma_dot_prefix(row2, z2, row, z, 54 * m);
        assert(crate::ring::ring_wf(block(row, m)));
        assert(crate::ring::ring_wf(block(z, m)));
        crate::bar::law_bar_inner_product(block(row, m), block(z, m));
        lemma_dot_block(row, z, m, 54);
        assert(m * 54 + 54 == 54 * n);
        let prev = dot(row, z, 54 * m);
        let last = dot(block(row, m), block(z, m), 54);
        crate::fp::lemma_fmod_add(prev, last);
    }
}

/// Inner products only read the first `n` entries.
proof fn lemma_ring_dot_prefix(a: Seq<Seq<nat>>, b: Seq<Seq<nat>>, a2: Seq<Seq<nat>>, b2: Seq<Seq<nat>>, n: int)
    requires
        forall|i: int| 0 <= i < n ==> #[trigger] a[i] == a2[i] && b[i] == b2[i],
    ensures
        ring_dot(a, b, n) == ring_dot(a2, b2, n),
    decreases n,
{
    if n > 0 {
        lemma_ring_dot_prefix(a, b, a2, b2, n - 1);
    }
}

/// Dot products only read the first `n` entries.
proof fn lemma_dot_prefix(a: Seq<nat>, b: Seq<nat>, a2: Seq<nat>, b2: Seq<nat>, n: int)
    requires
        n <= a.len(),
        n <= b.len(),
        a.len() <= a2.len(),
        b.len() <= b2.len(),
        a == a2.subrange(0, a.len() as int),
        b == b2.subrange(0, b.len() as int),
    ensures
        dot(a, b, n) == dot(a2, b2, n),
    decreases n,
{
    if n > 0 {
        lemma_dot_prefix(a, b, a2, b2, n - 1);
        assert(a[n - 1] == a2[n - 1]);
        assert(b[n - 1] == b2[n - 1]);
    }
}

} // verus!
