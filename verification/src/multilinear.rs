//! Multilinear-extension utilities over the extension field `K`.
//!
//! Convention: a table of length `2^l` is indexed with variable 0 as the most
//! significant bit. The multilinear extension of a table at a point is obtained by
//! fixing the variables one at a time, variable 0 first: fixing a variable to `p`
//! folds a table `t` of length `2h` into `t[i] (1 - p) + t[h + i] p`.

use vstd::arithmetic::power2::*;
use vstd::prelude::*;

use crate::ext2::{e2_add, e2_base, e2_canon, e2_mul, e2_one, e2_seq, e2_sub, e2_zero, law_e2_field_axioms, Ext2, E2};
use crate::fp::{fp_seq, lemma_fp_lt_q, Fp};
use crate::ring::{ring_seq, RingElem, D};
use crate::ring_k::RingK;

verus! {

broadcast use {lemma_fp_lt_q, lemma_pow2_pos, lemma_pow2_unfold};

/// The factor `x y + (1 - x)(1 - y)` of the equality polynomial.
pub open spec fn eq_factor(x: E2, y: E2) -> E2 {
    e2_add(e2_mul(x, y), e2_mul(e2_sub(e2_one(), x), e2_sub(e2_one(), y)))
}

/// `eq(a, b)` over the first `n` coordinates.
pub open spec fn eq_spec(a: Seq<E2>, b: Seq<E2>, n: int) -> E2
    decreases n,
{
    if n <= 0 {
        e2_one()
    } else {
        e2_mul(eq_spec(a, b, n - 1), eq_factor(a[n - 1], b[n - 1]))
    }
}

/// Bit `j` (counting from the least significant) of `idx`.
pub open spec fn bit(idx: nat, j: nat) -> bool {
    (idx / pow2(j)) % 2 == 1
}

/// Entry `idx` of the equality table at `point`, over its first `n` variables.
pub open spec fn eq_entry(point: Seq<E2>, idx: nat, n: int) -> E2
    decreases n,
{
    if n <= 0 {
        e2_one()
    } else {
        e2_mul(
            eq_entry(point, idx, n - 1),
            if bit(idx, (point.len() - n) as nat) {
                point[n - 1]
            } else {
                e2_sub(e2_one(), point[n - 1])
            },
        )
    }
}

/// Fixing the leading variable of a table to `p`.
pub open spec fn fold1(t: Seq<E2>, p: E2) -> Seq<E2> {
    Seq::new(
        t.len() / 2,
        |i: int| e2_add(e2_mul(t[i], e2_sub(e2_one(), p)), e2_mul(t[t.len() / 2 + i], p)),
    )
}

/// The multilinear extension of table `t` at `point`.
pub open spec fn mle(t: Seq<E2>, point: Seq<E2>) -> E2
    decreases point.len(),
{
    if point.len() == 0 {
        t[0]
    } else {
        mle(fold1(t, point[0]), point.drop_first())
    }
}

/// `vals` zero-padded (or truncated) to length `n`.
pub open spec fn pad(vals: Seq<E2>, n: nat) -> Seq<E2> {
    Seq::new(n, |i: int| if i < vals.len() { vals[i] } else { e2_zero() })
}

/// Base-field residues embedded into `K`.
pub open spec fn base_seq(vals: Seq<nat>) -> Seq<E2> {
    vals.map_values(|x: nat| e2_base(x))
}

/// Column `l` of the coefficient table of a ring vector, embedded into `K`.
pub open spec fn ring_column(vals: Seq<Seq<nat>>, l: int) -> Seq<E2> {
    Seq::new(vals.len(), |row: int| e2_base(vals[row][l]))
}

/// The smallest power of two that is at least `n` (and at least 1).
pub fn next_pow2(n: usize) -> (r: usize)
    requires
        n <= usize::MAX / 2 + 1,
    ensures
        r >= n,
        r >= 1,
        exists|e: nat| pow2(e) == r,
        r == 1 || r / 2 < n,
{
    let mut p: usize = 1;
    let ghost mut e: nat = 0;
    proof {
        lemma_pow2(0);
        vstd::arithmetic::power::lemma_pow0(2);
    }
    while p < n
        invariant
            p >= 1,
            pow2(e) == p,
            n <= usize::MAX / 2 + 1,
            p == 1 || p / 2 < n,
        decreases usize::MAX - p,
    {
        p = p * 2;
        proof {
            e = e + 1;
        }
    }
    p
}

/// `log2` of a power of two.
pub fn log2_pow2(m: usize) -> (r: usize)
    requires
        exists|e: nat| pow2(e) == m,
    ensures
        pow2(r as nat) == m,
{
    let ghost e0 = choose|e: nat| pow2(e) == m;
    let mut x = m;
    let mut r: usize = 0;
    proof {
        lemma_pow2(0);
        vstd::arithmetic::power::lemma_pow0(2);
    }
    while x > 1
        invariant
            x >= 1,
            r <= 64,
            r <= e0,
            pow2(e0) == m,
            pow2((e0 - r) as nat) == x,
            m <= usize::MAX,
        decreases x,
    {
        proof {
            lemma2_to64();
            if e0 - r == 0 {
                assert(x == 1);
            }
            lemma_pow2_unfold((e0 - r) as nat);
            if r >= 64 {
                lemma_pow2_strictly_increases(64, e0);
                lemma2_to64_rest();
            }
        }
        x = x / 2;
        r = r + 1;
    }
    proof {
        if e0 - r > 0 {
            lemma_pow2_unfold((e0 - r) as nat);
        }
    }
    r
}

/// `eq(a, b) = prod_i (a_i b_i + (1 - a_i)(1 - b_i))`.
pub fn eq(a: &[Ext2], b: &[Ext2]) -> (r: Ext2)
    requires
        a.len() == b.len(),
    ensures
        r@ == eq_spec(e2_seq(a@), e2_seq(b@), a.len() as int),
{
    let mut acc = Ext2::one();
    let mut i: usize = 0;
    while i < a.len()
        invariant
            i <= a.len(),
            a.len() == b.len(),
            acc@ == eq_spec(e2_seq(a@), e2_seq(b@), i as int),
        decreases a.len() - i,
    {
        let ai = a[i];
        let bi = b[i];
        let one = Ext2::one();
        let f = ai * bi + (one - ai) * (one - bi);
        acc = acc * f;
        i = i + 1;
    }
    acc
}

/// The table `[eq(x, point)]` over `x` in `{0,1}^l` (length `2^l`), variable 0 = MSB.
pub fn eq_table(point: &[Ext2]) -> (r: Vec<Ext2>)
    requires
        point.len() < 64,
        pow2(point.len() as nat) <= usize::MAX,
    ensures
        r@.len() == pow2(point.len() as nat),
        forall|idx: int|
            0 <= idx < r@.len() ==> (#[trigger] r@[idx])@ == eq_entry(
                e2_seq(point@),
                idx as nat,
                point.len() as int,
            ),
{
    let ell = point.len();
    let ghost pv = e2_seq(point@);
    // pows[i] = 2^(ell - 1 - i)
    let mut pows: Vec<usize> = Vec::new();
    let mut i: usize = 0;
    while i < ell
        invariant
            i <= ell,
            ell == point.len(),
            ell < 64,
            pow2(ell as nat) <= usize::MAX,
            pows@.len() == i,
            forall|t: int| 0 <= t < i ==> pows@[t] == pow2((ell - 1 - t) as nat),
        decreases ell - i,
    {
        let mut pw: usize = 1;
        let mut t: usize = 0;
        proof {
            lemma_pow2(0);
            vstd::arithmetic::power::lemma_pow0(2);
        }
        while t < ell - 1 - i
            invariant
                t <= ell - 1 - i,
                i < ell,
                ell < 64,
                pow2(ell as nat) <= usize::MAX,
                pw == pow2(t as nat),
            decreases ell - 1 - i - t,
        {
            proof {
                lemma_pow2_unfold((t + 1) as nat);
                lemma_pow2_strictly_increases((t + 1) as nat, ell as nat);
            }
            pw = pw * 2;
            t = t + 1;
        }
        pows.push(pw);
        i = i + 1;
    }
    let mut n: usize = 1;
    let mut t: usize = 0;
    proof {
        lemma_pow2(0);
        vstd::arithmetic::power::lemma_pow0(2);
    }
    while t < ell
        invariant
            t <= ell,
            ell < 64,
            pow2(ell as nat) <= usize::MAX,
            n == pow2(t as nat),
        decreases ell - t,
    {
        proof {
            lemma_pow2_unfold((t + 1) as nat);
            if t + 1 < ell {
                lemma_pow2_strictly_increases((t + 1) as nat, ell as nat);
            }
        }
        n = n * 2;
        t = t + 1;
    }
    let mut tab: Vec<Ext2> = Vec::new();
    let mut idx: usize = 0;
    while idx < n
        invariant
            idx <= n,
            n == pow2(ell as nat),
            ell == point.len(),
            pv == e2_seq(point@),
            pows@.len() == ell,
            forall|t2: int| 0 <= t2 < ell ==> pows@[t2] == pow2((ell - 1 - t2) as nat),
            tab@.len() == idx,
            forall|j: int| 0 <= j < idx ==> (#[trigger] tab@[j])@ == eq_entry(pv, j as nat, ell as int),
        decreases n - idx,
    {
        let mut acc = Ext2::one();
        let mut k: usize = 0;
        while k < ell
            invariant
                k <= ell,
                ell == point.len(),
                pv == e2_seq(point@),
                pows@.len() == ell,
                forall|t2: int| 0 <= t2 < ell ==> pows@[t2] == pow2((ell - 1 - t2) as nat),
                acc@ == eq_entry(pv, idx as nat, k as int),
            decreases ell - k,
        {
            let pk = point[k];
            let b = (idx / pows[k]) % 2;
            let f = if b == 1 {
                pk
            } else {
                Ext2::one() - pk
            };
            proof {
                assert(pv.len() - (k + 1) == ell - 1 - k);
            }
            acc = acc * f;
            k = k + 1;
        }
        tab.push(acc);
        idx = idx + 1;
    }
    tab
}

/// Evaluate the multilinear extension of an extension-valued table at `point`.
///
/// `vals` is zero-padded (or truncated) to `2^point.len()`. Folds variable 0 first.
pub fn mle_eval_ext(vals: &[Ext2], point: &[Ext2]) -> (r: Ext2)
    requires
        point.len() < 64,
        pow2(point.len() as nat) <= usize::MAX,
    ensures
        r@ == mle(pad(e2_seq(vals@), pow2(point.len() as nat)), e2_seq(point@)),
{
    let ell = point.len();
    let ghost pv = e2_seq(point@);
    let mut size: usize = 1;
    let mut t: usize = 0;
    proof {
        lemma_pow2(0);
        vstd::arithmetic::power::lemma_pow0(2);
    }
    while t < ell
        invariant
            t <= ell,
            ell < 64,
            pow2(ell as nat) <= usize::MAX,
            size == pow2(t as nat),
        decreases ell - t,
    {
        proof {
            lemma_pow2_unfold((t + 1) as nat);
            if t + 1 < ell {
                lemma_pow2_strictly_increases((t + 1) as nat, ell as nat);
            }
        }
        size = size * 2;
        t = t + 1;
    }
    let ghost full = pad(e2_seq(vals@), size as nat);
    let mut tab: Vec<Ext2> = Vec::new();
    let mut i: usize = 0;
    while i < size
        invariant
            i <= size,
            full == pad(e2_seq(vals@), size as nat),
            tab@.len() == i,
            forall|j: int| 0 <= j < i ==> (#[trigger] tab@[j])@ == full[j],
        decreases size - i,
    {
        if i < vals.len() {
            tab.push(vals[i]);
        } else {
            tab.push(Ext2::zero());
        }
        i = i + 1;
    }
    assert(e2_seq(tab@) =~= full);
    assert(e2_seq(tab@).subrange(0, size as int) =~= full);
    assert(pv.skip(0) =~= pv);
    let mut j: usize = 0;
    while j < ell
        invariant
            j <= ell,
            ell == point.len(),
            pv == e2_seq(point@),
            size == pow2((ell - j) as nat),
            tab@.len() >= size,
            size >= 1,
            mle(full, pv) == mle(e2_seq(tab@).subrange(0, size as int), pv.skip(j as int)),
        decreases ell - j,
    {
        let p = point[j];
        let half = size / 2;
        proof {
            lemma_pow2_unfold((ell - j) as nat);
        }
        let ghost old_t = e2_seq(tab@).subrange(0, size as int);
        let mut idx: usize = 0;
        while idx < half
            invariant
                idx <= half,
                half * 2 == size,
                tab@.len() >= size,
                old_t.len() == size,
                forall|x: int| 0 <= x < idx ==> (#[trigger] tab@[x])@ == fold1(old_t, p@)[x],
                forall|x: int| idx <= x < size ==> (#[trigger] tab@[x])@ == old_t[x],
            decreases half - idx,
        {
            let lo = tab[idx];
            let hi = tab[half + idx];
            let v = lo * (Ext2::one() - p) + hi * p;
            tab.set(idx, v);
            idx = idx + 1;
        }
        proof {
            assert(e2_seq(tab@).subrange(0, half as int) =~= fold1(old_t, p@));
            assert(pv.skip(j as int).drop_first() =~= pv.skip(j + 1));
            assert(pv.skip(j as int)[0] == p@);
        }
        size = half;
        j = j + 1;
    }
    proof {
        assert(pv.skip(ell as int).len() == 0);
    }
    tab[0]
}

/// Evaluate the multilinear extension of a field-valued table at `point`.
pub fn mle_eval_fp(vals: &[Fp], point: &[Ext2]) -> (r: Ext2)
    requires
        point.len() < 64,
        pow2(point.len() as nat) <= usize::MAX,
    ensures
        r@ == mle(pad(base_seq(fp_seq(vals@)), pow2(point.len() as nat)), e2_seq(point@)),
{
    let mut ext: Vec<Ext2> = Vec::new();
    let mut i: usize = 0;
    while i < vals.len()
        invariant
            i <= vals.len(),
            ext@.len() == i,
            forall|j: int| 0 <= j < i ==> (#[trigger] ext@[j])@ == e2_base(vals@[j]@),
        decreases vals.len() - i,
    {
        ext.push(Ext2::from_base(vals[i]));
        i = i + 1;
    }
    assert(e2_seq(ext@) =~= base_seq(fp_seq(vals@)));
    mle_eval_ext(&ext, point)
}

/// Evaluate the multilinear extension of a ring vector at a point, coefficient by
/// coefficient: coefficient `l` of the result is the extension of `[cf(v_row)_l]`.
pub fn mle_eval_ring(vals: &[RingElem], point: &[Ext2]) -> (r: RingK)
    requires
        point.len() < 64,
        pow2(point.len() as nat) <= usize::MAX,
    ensures
        forall|l: int|
            0 <= l < D ==> (#[trigger] r@[l]) == mle(
                pad(ring_column(ring_seq(vals@), l), pow2(point.len() as nat)),
                e2_seq(point@),
            ),
{
    let mut coeffs = [Ext2::zero();D];
    let mut l: usize = 0;
    while l < D
        invariant
            l <= D,
            point.len() < 64,
            pow2(point.len() as nat) <= usize::MAX,
            forall|t: int|
                0 <= t < l ==> (#[trigger] coeffs@[t])@ == mle(
                    pad(ring_column(ring_seq(vals@), t), pow2(point.len() as nat)),
                    e2_seq(point@),
                ),
        decreases D - l,
    {
        let mut column: Vec<Fp> = Vec::new();
        let mut row: usize = 0;
        while row < vals.len()
            invariant
                row <= vals.len(),
                l < D,
                column@.len() == row,
                forall|j: int| 0 <= j < row ==> (#[trigger] column@[j])@ == vals@[j]@[l as int],
            decreases vals.len() - row,
        {
            column.push(vals[row].coeff(l));
            row = row + 1;
        }
        assert(base_seq(fp_seq(column@)) =~= ring_column(ring_seq(vals@), l as int));
        coeffs[l] = mle_eval_fp(&column, point);
        l = l + 1;
    }
    let r = RingK::from_coeffs(coeffs);
    r
}

/// Entry-wise sum of two tables.
pub open spec fn table_add(t1: Seq<E2>, t2: Seq<E2>) -> Seq<E2> {
    Seq::new(t1.len(), |i: int| e2_add(t1[i], t2[i]))
}

/// Every entry of a table multiplied by `c`.
pub open spec fn table_scale(t: Seq<E2>, c: E2) -> Seq<E2> {
    Seq::new(t.len(), |i: int| e2_mul(t[i], c))
}

/// Every entry of a table is a canonical element of `K`.
pub open spec fn table_canon(t: Seq<E2>) -> bool {
    forall|i: int| 0 <= i < t.len() ==> e2_canon(#[trigger] t[i])
}

/// `(a + b) c = a c + b c` in `K`.
proof fn lemma_e2_distrib_right(a: E2, b: E2, c: E2)
    requires
        e2_canon(a),
        e2_canon(b),
        e2_canon(c),
    ensures
        e2_mul(e2_add(a, b), c) == e2_add(e2_mul(a, c), e2_mul(b, c)),
{
    law_e2_field_axioms(c, a, b);
    law_e2_field_axioms(e2_add(a, b), c, a);
    law_e2_field_axioms(a, c, b);
    law_e2_field_axioms(b, c, a);
}

/// `(a + b) + (c + d) = (a + c) + (b + d)` in `K`.
proof fn lemma_e2_add_swap(a: E2, b: E2, c: E2, d: E2)
    requires
        e2_canon(a),
        e2_canon(b),
        e2_canon(c),
        e2_canon(d),
    ensures
        e2_add(e2_add(a, b), e2_add(c, d)) == e2_add(e2_add(a, c), e2_add(b, d)),
{
    law_e2_field_axioms(a, b, e2_add(c, d));
    law_e2_field_axioms(b, c, d);
    law_e2_field_axioms(c, b, d);
    law_e2_field_axioms(a, c, e2_add(b, d));
}

/// `(a c) u = (a u) c` in `K`.
proof fn lemma_e2_mul_swap(a: E2, c: E2, u: E2)
    requires
        e2_canon(a),
        e2_canon(c),
        e2_canon(u),
    ensures
        e2_mul(e2_mul(a, c), u) == e2_mul(e2_mul(a, u), c),
{
    law_e2_field_axioms(a, c, u);
    law_e2_field_axioms(c, u, a);
    law_e2_field_axioms(a, u, c);
}

/// Sums, differences and products in `K` are canonical.
proof fn lemma_e2_ops_canon(a: E2, b: E2)
    ensures
        e2_canon(e2_add(a, b)),
        e2_canon(e2_sub(a, b)),
        e2_canon(e2_mul(a, b)),
{
}

/// One entry of a fold, linear in the table entries it reads.
proof fn lemma_fold_entry(a: E2, b: E2, x: E2, y: E2, c: E2, p: E2)
    requires
        e2_canon(a),
        e2_canon(b),
        e2_canon(x),
        e2_canon(y),
        e2_canon(c),
        e2_canon(p),
    ensures
        e2_add(e2_mul(e2_add(a, b), e2_sub(e2_one(), p)), e2_mul(e2_add(x, y), p)) == e2_add(
            e2_add(e2_mul(a, e2_sub(e2_one(), p)), e2_mul(x, p)),
            e2_add(e2_mul(b, e2_sub(e2_one(), p)), e2_mul(y, p)),
        ),
        e2_add(e2_mul(e2_mul(a, c), e2_sub(e2_one(), p)), e2_mul(e2_mul(x, c), p)) == e2_mul(
            e2_add(e2_mul(a, e2_sub(e2_one(), p)), e2_mul(x, p)),
            c,
        ),
{
    let u = e2_sub(e2_one(), p);
    lemma_e2_ops_canon(e2_one(), p);
    lemma_e2_ops_canon(a, u);
    lemma_e2_ops_canon(b, u);
    lemma_e2_ops_canon(x, p);
    lemma_e2_ops_canon(y, p);
    lemma_e2_distrib_right(a, b, u);
    lemma_e2_distrib_right(x, y, p);
    lemma_e2_add_swap(e2_mul(a, u), e2_mul(b, u), e2_mul(x, p), e2_mul(y, p));
    lemma_e2_mul_swap(a, c, u);
    lemma_e2_mul_swap(x, c, p);
    lemma_e2_distrib_right(e2_mul(a, u), e2_mul(x, p), c);
}

/// Fixing a variable is linear in the table.
proof fn lemma_fold1_linear(t1: Seq<E2>, t2: Seq<E2>, c: E2, p: E2)
    requires
        t2.len() == t1.len(),
        table_canon(t1),
        table_canon(t2),
        e2_canon(c),
        e2_canon(p),
    ensures
        fold1(table_add(t1, t2), p) == table_add(fold1(t1, p), fold1(t2, p)),
        fold1(table_scale(t1, c), p) == table_scale(fold1(t1, p), c),
        table_canon(fold1(t1, p)),
        table_canon(fold1(t2, p)),
{
    let h = t1.len() / 2;
    let f1 = fold1(t1, p);
    let f2 = fold1(t2, p);
    assert forall|i: int| 0 <= i < h implies #[trigger] fold1(table_add(t1, t2), p)[i] == table_add(f1, f2)[i] by {
        lemma_fold_entry(t1[i], t2[i], t1[h + i], t2[h + i], c, p);
    }
    assert forall|i: int| 0 <= i < h implies #[trigger] fold1(table_scale(t1, c), p)[i] == table_scale(f1, c)[i] by {
        lemma_fold_entry(t1[i], t2[i], t1[h + i], t2[h + i], c, p);
    }
    assert forall|i: int| 0 <= i < h implies e2_canon(#[trigger] f1[i]) && e2_canon(f2[i]) by {
        lemma_e2_ops_canon(e2_mul(t1[i], e2_sub(e2_one(), p)), e2_mul(t1[h + i], p));
        lemma_e2_ops_canon(e2_mul(t2[i], e2_sub(e2_one(), p)), e2_mul(t2[h + i], p));
    }
    assert(fold1(table_add(t1, t2), p) =~= table_add(f1, f2));
    assert(fold1(table_scale(t1, c), p) =~= table_scale(f1, c));
}

/// The multilinear extension is linear in the table: the extension of a sum is the sum
/// of the extensions, and scaling the table scales the extension.
pub proof fn lemma_mle_linear(t1: Seq<E2>, t2: Seq<E2>, c: E2, point: Seq<E2>)
    requires
        t1.len() == pow2(point.len()),
        t2.len() == t1.len(),
        table_canon(t1),
        table_canon(t2),
        e2_canon(c),
        forall|v: int| 0 <= v < point.len() ==> e2_canon(#[trigger] point[v]),
    ensures
        mle(table_add(t1, t2), point) == e2_add(mle(t1, point), mle(t2, point)),
        mle(table_scale(t1, c), point) == e2_mul(mle(t1, point), c),
    decreases point.len(),
{
    if point.len() > 0 {
        let p = point[0];
        assert(e2_canon(point[0]));
        lemma_fold1_linear(t1, t2, c, p);
        assert(pow2(point.len() as nat) == 2 * pow2((point.len() - 1) as nat));
        lemma_mle_linear(fold1(t1, p), fold1(t2, p), c, point.drop_first());
    } else {
        lemma2_to64();
    }
}

/// The multilinear extension of a canonical table is canonical.
pub proof fn lemma_mle_canon(t: Seq<E2>, point: Seq<E2>)
    requires
        t.len() == pow2(point.len()),
        table_canon(t),
    ensures
        e2_canon(mle(t, point)),
    decreases point.len(),
{
    if point.len() > 0 {
        let p = point[0];
        let f = fold1(t, p);
        assert(pow2(point.len() as nat) == 2 * pow2((point.len() - 1) as nat));
        assert forall|i: int| 0 <= i < f.len() implies e2_canon(#[trigger] f[i]) by {
            lemma_e2_ops_canon(e2_mul(t[i], e2_sub(e2_one(), p)), e2_mul(t[t.len() / 2 + i], p));
        }
        lemma_mle_canon(f, point.drop_first());
    } else {
        lemma2_to64();
    }
}

} // verus!
