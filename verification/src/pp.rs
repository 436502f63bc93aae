//! Ajtai public parameters: a matrix `A` in `R_F^(kappa x n_cols)` expanded from a
//! 32-byte seed with ChaCha8, and the commitment map `Commit(A, z) = A z`.

use rand::{RngCore, SeedableRng};
use rand_chacha::ChaCha8Rng;
use vstd::prelude::*;

use crate::commit::Commitment;
use crate::error::CommitError;
use crate::fp::{fmod, fp_seq, lemma_fmod_small, lemma_fp_lt_q, Fp};
use crate::params::{params_valid, Params};
use crate::commit::{commit_add, commit_scale_fp, commit_scale_ring};
use crate::ring::{
    lemma_ring_dot_add, lemma_ring_dot_mul, lemma_ring_dot_scale, lemma_ring_wf, ring_dot, ring_seq, ring_vec_add,
    ring_vec_mul, ring_vec_scale, ring_wf, RingElem, D,
};
use crate::Q;

verus! {

broadcast use {lemma_fp_lt_q, lemma_ring_wf};

#[verifier::external_type_specification]
#[verifier::external_body]
pub struct ExChaCha8Rng(ChaCha8Rng);

/// The 64-bit word of the ChaCha8 stream keyed by `seed` that starts at 32-bit word
/// position `word_pos`.
pub uninterp spec fn chacha8_u64_at(seed: Seq<u8>, word_pos: nat) -> u64;

/// `ChaCha8Rng::from_seed(seed)`, moved with `set_word_pos(word_pos)`, then `next_u64`:
/// the two 32-bit stream words at `word_pos` (low word first). The stream is a function
/// of the seed alone, so the result is named as a function of the seed and the
/// position; nothing more of its value is stated.
#[verifier::external_body]
fn chacha8_u64_at_pos(seed: [u8; 32], word_pos: u128) -> (r: u64)
    ensures
        r == chacha8_u64_at(seed@, word_pos as nat),
{
    let mut rng = ChaCha8Rng::from_seed(seed);
    rng.set_word_pos(word_pos);
    rng.next_u64()
}

/// `RngCore::next_u64` on a ChaCha8 generator: the next 64 bits of its stream. The
/// value depends on the generator's internal state, which is not modelled; nothing is
/// stated of it.
#[verifier::external_body]
pub(crate) fn chacha8_next_u64(rng: &mut ChaCha8Rng) -> u64 {
    rng.next_u64()
}

/// The 64-bit draw number `pos` of the stream keyed by `seed`.
pub open spec fn seed_draw(seed: Seq<u8>, pos: nat) -> u64 {
    chacha8_u64_at(seed, 2 * pos)
}

/// The number of draws a 128-bit draw counter can index with room for the word
/// position `2 pos`.
pub const DRAW_LIMIT: u128 = 0x7FFF_FFFF_FFFF_FFFF_FFFF_FFFF_FFFF_FFFF;

/// Rejection sampling of a field element from draw `pos` on: the first draw below `q`,
/// and the position after it. When the draw counter runs out (after `2^127` draws),
/// the last draw is reduced modulo `q` instead.
pub open spec fn fp_draw(seed: Seq<u8>, pos: nat) -> (nat, nat)
    decreases DRAW_LIMIT - pos,
{
    if pos >= DRAW_LIMIT {
        (fmod(seed_draw(seed, DRAW_LIMIT as nat) as int), pos)
    } else if seed_draw(seed, pos) < Q {
        (seed_draw(seed, pos) as nat, pos + 1)
    } else {
        fp_draw(seed, pos + 1)
    }
}

/// `n` field elements sampled one after the other from draw `pos` on, and the position
/// after them.
pub open spec fn fp_draws(seed: Seq<u8>, pos: nat, n: nat) -> (Seq<nat>, nat)
    decreases n,
{
    if n == 0 {
        (Seq::empty(), pos)
    } else {
        let prev = fp_draws(seed, pos, (n - 1) as nat);
        let next = fp_draw(seed, prev.1);
        (prev.0.push(next.0), next.1)
    }
}

/// The draw position at which matrix entry `e` (row-major) starts.
pub open spec fn entry_pos(seed: Seq<u8>, e: nat) -> nat
    decreases e,
{
    if e == 0 {
        0
    } else {
        fp_draws(seed, entry_pos(seed, (e - 1) as nat), D as nat).1
    }
}

/// The coefficients of matrix entry `e` (row-major) expanded from `seed`.
pub open spec fn entry_coeffs(seed: Seq<u8>, e: nat) -> Seq<nat> {
    fp_draws(seed, entry_pos(seed, e), D as nat).0
}

/// A uniform field element in `[0, q)` by rejection sampling from draw `*pos` on.
///
/// Draws are indexed by a 128-bit counter; when it runs out, the last draw is reduced.
fn uniform_fp(seed: &[u8; 32], pos: &mut u128) -> (r: Fp)
    ensures
        (r@, *final(pos) as nat) == fp_draw(seed@, *old(pos) as nat),
{
    while *pos < DRAW_LIMIT
        invariant
            fp_draw(seed@, *pos as nat) == fp_draw(seed@, *old(pos) as nat),
        decreases DRAW_LIMIT - *pos,
    {
        let x = chacha8_u64_at_pos(*seed, 2 * *pos);
        *pos = *pos + 1;
        if x < Q {
            proof {
                lemma_fmod_small(x as nat);
            }
            return Fp::new(x);
        }
    }
    Fp::new(chacha8_u64_at_pos(*seed, 2 * DRAW_LIMIT))
}

/// A uniform ring element (each coefficient uniform in `F`), drawn from `*pos` on.
fn uniform_ring(seed: &[u8; 32], pos: &mut u128) -> (r: RingElem)
    ensures
        (r@, *final(pos) as nat) == fp_draws(seed@, *old(pos) as nat, D as nat),
{
    let ghost p0 = *pos as nat;
    let mut c = [Fp::zero();D];
    let mut l: usize = 0;
    while l < D
        invariant
            l <= D,
            forall|t: int| 0 <= t < l ==> (#[trigger] c@[t])@ == fp_draws(seed@, p0, l as nat).0[t],
            fp_draws(seed@, p0, l as nat).0.len() == l,
            *pos as nat == fp_draws(seed@, p0, l as nat).1,
        decreases D - l,
    {
        c[l] = uniform_fp(seed, pos);
        l = l + 1;
    }
    let r = RingElem::from_coeffs(c);
    assert(r@ =~= fp_draws(seed@, p0, D as nat).0);
    r
}

/// Ajtai public parameters: a `kappa x n_cols` matrix over `R_F`.
#[derive(Debug, Clone, PartialEq, Eq)]
pub struct PublicParams {
    /// Module rank `kappa`.
    pub kappa: usize,
    /// Number of columns (the ring-vector length of committed witnesses).
    pub n_cols: usize,
    /// Row-major matrix `A`.
    pub a: Vec<Vec<RingElem>>,
}

impl PublicParams {
    /// The matrix as rows of coefficient sequences.
    pub open spec fn matrix(&self) -> Seq<Seq<Seq<nat>>> {
        self.a@.map_values(|row: Vec<RingElem>| ring_seq(row@))
    }

    /// The matrix has `kappa` rows of `n_cols` entries.
    pub open spec fn wf(&self) -> bool {
        &&& self.a@.len() == self.kappa
        &&& forall|i: int| 0 <= i < self.kappa ==> (#[trigger] self.a@[i])@.len() == self.n_cols
    }

    /// `A z` for a ring vector `z` of `n_cols` entries.
    pub open spec fn commit_spec(&self, z: Seq<Seq<nat>>) -> Seq<Seq<nat>> {
        Seq::new(self.kappa as nat, |i: int| ring_dot(self.matrix()[i], z, self.n_cols as int))
    }

    /// Expand `A` deterministically from `seed`: the entries, row by row, are sampled one
    /// after the other from the ChaCha8 stream keyed by `seed`.
    pub fn setup_seeded(seed: [u8; 32], kappa: usize, n_cols: usize) -> (r: PublicParams)
        ensures
            r.kappa == kappa,
            r.n_cols == n_cols,
            r.wf(),
            forall|i: int, j: int|
                0 <= i < kappa && 0 <= j < n_cols ==> #[trigger] r.matrix()[i][j] == entry_coeffs(
                    seed@,
                    (i * n_cols + j) as nat,
                ),
    {
        let mut pos: u128 = 0;
        let ghost mut e: nat = 0;
        let mut a: Vec<Vec<RingElem>> = Vec::new();
        let mut i: usize = 0;
        while i < kappa
            invariant
                i <= kappa,
                a@.len() == i,
                e == i * n_cols,
                pos as nat == entry_pos(seed@, e),
                forall|t: int| 0 <= t < i ==> (#[trigger] a@[t])@.len() == n_cols,
                forall|t: int, j: int|
                    0 <= t < i && 0 <= j < n_cols ==> (#[trigger] a@[t]@[j])@ == entry_coeffs(
                        seed@,
                        (t * n_cols + j) as nat,
                    ),
            decreases kappa - i,
        {
            let mut row: Vec<RingElem> = Vec::new();
            let mut j: usize = 0;
            while j < n_cols
                invariant
                    j <= n_cols,
                    i < kappa,
                    row@.len() == j,
                    e == i * n_cols + j,
                    pos as nat == entry_pos(seed@, e),
                    forall|j2: int| 0 <= j2 < j ==> (#[trigger] row@[j2])@ == entry_coeffs(
                        seed@,
                        (i * n_cols + j2) as nat,
                    ),
                decreases n_cols - j,
            {
                let x = uniform_ring(&seed, &mut pos);
                proof {
                    assert(x@ == entry_coeffs(seed@, e));
                    assert(pos as nat == entry_pos(seed@, e + 1));
                    e = e + 1;
                }
                row.push(x);
                j = j + 1;
            }
            a.push(row);
            proof {
                assert(e == (i + 1) * n_cols) by (nonlinear_arith)
                    requires
                        e == i * n_cols + n_cols,
                ;
            }
            i = i + 1;
        }
        let r = PublicParams { kappa, n_cols, a };
        assert forall|i: int, j: int| 0 <= i < kappa && 0 <= j < n_cols implies #[trigger] r.matrix()[i][j]
            == entry_coeffs(seed@, (i * n_cols + j) as nat) by {
            assert(r.matrix()[i] == ring_seq(r.a@[i]@));
        }
        r
    }

    /// Validate `params`, then expand `A` with rank `kappa` taken from them.
    pub fn from_params(seed: [u8; 32], params: &Params, n_cols: usize) -> (r: Result<PublicParams, CommitError>)
        ensures
            r is Ok <==> params_valid(*params),
            r matches Ok(pp) ==> pp.kappa == params.kappa && pp.n_cols == n_cols && pp.wf(),
            !params_valid(*params) ==> (r matches Err(e) && params.validate_spec_err(e)),
    {
        match params.validate() {
            Ok(()) => Ok(PublicParams::setup_seeded(seed, params.kappa, n_cols)),
            Err(e) => Err(e),
        }
    }

    /// Borrow the matrix entry `a[i][j]`.
    pub fn entry(&self, i: usize, j: usize) -> (r: &RingElem)
        requires
            self.wf(),
            i < self.kappa,
            j < self.n_cols,
        ensures
            r@ == self.matrix()[i as int][j as int],
    {
        &self.a[i][j]
    }

    /// Commit to a ring vector: `Commit(A, z) = A z`.
    ///
    /// Fails with `DimMismatch` exactly when `z` does not have `n_cols` entries.
    pub fn commit(&self, z: &[RingElem]) -> (r: Result<Commitment, CommitError>)
        requires
            self.wf(),
        ensures
            z.len() != self.n_cols ==> r matches Err(CommitError::DimMismatch(_)),
            z.len() == self.n_cols ==> (r matches Ok(c) && c@ == self.commit_spec(ring_seq(z@))),
    {
        if z.len() != self.n_cols {
            return Err(CommitError::DimMismatch(crate::error::msg_witness_len(z.len(), self.n_cols)));
        }
        let mut out: Vec<RingElem> = Vec::new();
        let mut i: usize = 0;
        while i < self.kappa
            invariant
                self.wf(),
                z.len() == self.n_cols,
                i <= self.kappa,
                out@.len() == i,
                forall|t: int|
                    0 <= t < i ==> (#[trigger] out@[t])@ == ring_dot(
                        self.matrix()[t],
                        ring_seq(z@),
                        self.n_cols as int,
                    ),
            decreases self.kappa - i,
        {
            let row = &self.a[i];
            let mut acc = RingElem::zero();
            let mut j: usize = 0;
            assert(ring_seq(row@) == self.matrix()[i as int]);
            while j < self.n_cols
                invariant
                    self.wf(),
                    i < self.kappa,
                    row == &self.a@[i as int],
                    row@.len() == self.n_cols,
                    z.len() == self.n_cols,
                    j <= self.n_cols,
                    acc@ == ring_dot(self.matrix()[i as int], ring_seq(z@), j as int),
                decreases self.n_cols - j,
            {
                acc = acc + row[j] * z[j];
                j = j + 1;
            }
            out.push(acc);
            i = i + 1;
        }
        let c = Commitment(out);
        assert(c@ =~= Seq::new(
            self.kappa as nat,
            |i: int| ring_dot(self.matrix()[i], ring_seq(z@), self.n_cols as int),
        ));
        Ok(c)
    }
}

/// The Ajtai commitment is a module homomorphism in the witness: committing to a sum is
/// the sum of the commitments, and committing to a field multiple is that multiple of
/// the commitment.
pub proof fn law_commit_homomorphism(pp: PublicParams, z1: Seq<Seq<nat>>, z2: Seq<Seq<nat>>, s: nat)
    requires
        pp.wf(),
        z1.len() == pp.n_cols,
        z2.len() == pp.n_cols,
        s < Q,
    ensures
        pp.commit_spec(ring_vec_add(z1, z2)) == commit_add(pp.commit_spec(z1), pp.commit_spec(z2)),
        pp.commit_spec(ring_vec_scale(z1, s)) == commit_scale_fp(pp.commit_spec(z1), s),
{
    assert forall|i: int| 0 <= i < pp.kappa implies #[trigger] pp.commit_spec(ring_vec_add(z1, z2))[i] == commit_add(
        pp.commit_spec(z1),
        pp.commit_spec(z2),
    )[i] && pp.commit_spec(ring_vec_scale(z1, s))[i] == commit_scale_fp(pp.commit_spec(z1), s)[i] by {
        lemma_ring_dot_add(pp.matrix()[i], z1, z2, pp.n_cols as int);
        lemma_ring_dot_scale(pp.matrix()[i], z1, s, pp.n_cols as int);
    }
    assert(pp.commit_spec(ring_vec_add(z1, z2)) =~= commit_add(pp.commit_spec(z1), pp.commit_spec(z2)));
    assert forall|i: int| 0 <= i < pp.kappa implies #[trigger] pp.commit_spec(ring_vec_scale(z1, s))[i]
        == commit_scale_fp(pp.commit_spec(z1), s)[i] by {
        lemma_ring_dot_scale(pp.matrix()[i], z1, s, pp.n_cols as int);
    }
    assert(pp.commit_spec(ring_vec_scale(z1, s)) =~= commit_scale_fp(pp.commit_spec(z1), s));
}

/// The Ajtai commitment is also linear over the ring: committing to `z rho` is
/// multiplying the commitment by `rho`.
pub proof fn law_commit_ring_homomorphism(pp: PublicParams, z: Seq<Seq<nat>>, rho: Seq<nat>)
    requires
        pp.wf(),
        z.len() == pp.n_cols,
        forall|j: int| 0 <= j < z.len() ==> ring_wf(#[trigger] z[j]),
        ring_wf(rho),
    ensures
        pp.commit_spec(ring_vec_mul(z, rho)) == commit_scale_ring(pp.commit_spec(z), rho),
{
    assert forall|i: int| 0 <= i < pp.kappa implies #[trigger] pp.commit_spec(ring_vec_mul(z, rho))[i]
        == commit_scale_ring(pp.commit_spec(z), rho)[i] by {
        let row = pp.matrix()[i];
        assert forall|j: int| 0 <= j < pp.n_cols implies ring_wf(#[trigger] row[j]) && ring_wf(z[j]) by {
            assert(row[j] == pp.a@[i]@[j]@);
        }
        lemma_ring_dot_mul(row, z, rho, pp.n_cols as int);
    }
    assert(pp.commit_spec(ring_vec_mul(z, rho)) =~= commit_scale_ring(pp.commit_spec(z), rho));
}

/// Rejection sampling from draw `pos` on moves forward, and, when it stops before the
/// counter runs out, returns the first draw at or after `pos` that is below `q`, every
/// draw it skipped being at least `q`.
pub proof fn law_fp_draw(seed: Seq<u8>, pos: nat)
    ensures
        fp_draw(seed, pos).1 >= pos,
        pos < DRAW_LIMIT ==> fp_draw(seed, pos).1 > pos,
        fp_draw(seed, pos).1 < DRAW_LIMIT ==> {
            let (v, nxt) = fp_draw(seed, pos);
            &&& nxt > pos
            &&& seed_draw(seed, (nxt - 1) as nat) < Q
            &&& v == seed_draw(seed, (nxt - 1) as nat)
            &&& forall|p: nat| pos <= p < nxt - 1 ==> seed_draw(seed, p) >= Q
        },
    decreases DRAW_LIMIT - pos,
{
    if pos < DRAW_LIMIT && seed_draw(seed, pos) >= Q {
        law_fp_draw(seed, pos + 1);
    }
}

/// The end position of `n` successive samples never moves back, and grows by at least
/// one per sample before the counter runs out.
proof fn lemma_fp_draws_end(seed: Seq<u8>, pos: nat, n: nat)
    ensures
        fp_draws(seed, pos, n).0.len() == n,
        fp_draws(seed, pos, n).1 >= pos,
        fp_draws(seed, pos, n).1 < DRAW_LIMIT ==> fp_draws(seed, pos, n).1 >= pos + n,
    decreases n,
{
    if n > 0 {
        lemma_fp_draws_end(seed, pos, (n - 1) as nat);
        law_fp_draw(seed, fp_draws(seed, pos, (n - 1) as nat).1);
    }
}

/// Sample `k` of `n` is the sample drawn from the end of the first `k`, and the end
/// positions grow with `k`.
proof fn lemma_fp_draws_prefix(seed: Seq<u8>, pos: nat, n: nat, k: nat)
    requires
        k < n,
    ensures
        fp_draws(seed, pos, n).0[k as int] == fp_draw(seed, fp_draws(seed, pos, k).1).0,
        fp_draws(seed, pos, k + 1).1 <= fp_draws(seed, pos, n).1,
    decreases n,
{
    lemma_fp_draws_end(seed, pos, (n - 1) as nat);
    if k < n - 1 {
        lemma_fp_draws_prefix(seed, pos, (n - 1) as nat, k);
        law_fp_draw(seed, fp_draws(seed, pos, (n - 1) as nat).1);
    }
}

/// `n` successive samples from draw `pos` on, when they end before the counter runs
/// out: sample `k` is the draw just before the end of the first `k + 1` samples, that
/// draw is below `q`, every draw skipped since the end of the first `k` samples is at
/// least `q`, and the samples take successive, disjoint stretches of the stream.
pub proof fn law_fp_draws(seed: Seq<u8>, pos: nat, n: nat, k: nat)
    requires
        k < n,
        fp_draws(seed, pos, n).1 < DRAW_LIMIT,
    ensures
        fp_draws(seed, pos, n).0.len() == n,
        fp_draws(seed, pos, n).1 >= pos + n,
        ({
            let lo = fp_draws(seed, pos, k).1;
            let hi = fp_draws(seed, pos, k + 1).1;
            &&& pos <= lo < hi <= fp_draws(seed, pos, n).1
            &&& seed_draw(seed, (hi - 1) as nat) < Q
            &&& fp_draws(seed, pos, n).0[k as int] == seed_draw(seed, (hi - 1) as nat)
            &&& forall|p: nat| lo <= p < hi - 1 ==> seed_draw(seed, p) >= Q
        }),
{
    lemma_fp_draws_end(seed, pos, n);
    lemma_fp_draws_prefix(seed, pos, n, k);
    lemma_fp_draws_end(seed, pos, k);
    let lo = fp_draws(seed, pos, k).1;
    law_fp_draw(seed, lo);
}

/// Matrix entries take successive stretches of the stream: each entry starts at least
/// `D` draws after the previous one (until the counter runs out).
pub proof fn law_entry_pos_advances(seed: Seq<u8>, e1: nat, e2: nat)
    requires
        e1 <= e2,
    ensures
        entry_pos(seed, e2) >= DRAW_LIMIT || entry_pos(seed, e2) >= entry_pos(seed, e1) + D * (e2 - e1),
    decreases e2 - e1,
{
    if e1 < e2 {
        law_entry_pos_advances(seed, e1, (e2 - 1) as nat);
        let p = entry_pos(seed, (e2 - 1) as nat);
        lemma_fp_draws_end(seed, p, D as nat);
        assert(entry_pos(seed, e2) == fp_draws(seed, p, D as nat).1);
        assert(D * (e2 - e1) == D * ((e2 - 1) - e1) + D) by (nonlinear_arith);
    }
}

/// Coefficient `l` of matrix entry `e` is a stream draw below `q` taken from the entry's
/// own stretch `[entry_pos(e), entry_pos(e + 1))` (before the counter runs out), so
/// distinct entries are drawn from disjoint parts of the stream.
pub proof fn law_entry_coeff_draw(seed: Seq<u8>, e: nat, l: nat)
    requires
        l < D,
        entry_pos(seed, e + 1) < DRAW_LIMIT,
    ensures
        exists|p: nat|
            entry_pos(seed, e) <= p < entry_pos(seed, e + 1) && entry_coeffs(seed, e)[l as int] == #[trigger] seed_draw(
                seed,
                p,
            ) && seed_draw(seed, p) < Q,
{
    let p0 = entry_pos(seed, e);
    assert(entry_pos(seed, e + 1) == fp_draws(seed, p0, D as nat).1);
    law_fp_draws(seed, p0, D as nat, l);
    let hi = fp_draws(seed, p0, l + 1).1;
    assert(seed_draw(seed, (hi - 1) as nat) < Q);
}

} // verus!
