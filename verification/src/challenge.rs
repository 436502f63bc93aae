//! The strong sampling set `C` and its sampler.
//!
//! `C` is the set of ring elements whose coefficients lie in `{-2, ..., 2}`.
//! Differences of distinct elements then have infinity norm at most 4, which keeps
//! them invertible.

use rand_chacha::ChaCha8Rng;
use vstd::prelude::*;

use crate::fp::{abs_balanced_of, fmod, Fp};
use crate::params::Params;
use crate::pp::chacha8_next_u64;
use crate::ring::{RingElem, D};
use crate::Q;

verus! {

/// Coefficient `l` of the challenge drawn from the 64-bit words `words`.
pub open spec fn challenge_coeff(w: u64, bound: int) -> nat {
    fmod((w % (2 * bound + 1) as u64) - bound)
}

/// A challenge coefficient has balanced magnitude at most the bound.
pub proof fn lemma_challenge_coeff_small(w: u64, bound: int)
    requires
        0 <= bound <= 0x3FFF_FFFF_FFFF_FFFF,
    ensures
        abs_balanced_of(challenge_coeff(w, bound)) <= bound,
{
    let span = (2 * bound + 1) as u64;
    assert(span == 2 * bound + 1);
    let d = (w % span) - bound;
    assert(0 <= w % span < span);
    crate::norm::lemma_fmod_balanced(d);
}

/// The challenge determined by 54 words: each coefficient is `w mod (2 bound + 1) - bound`.
pub fn challenge_from_words(words: &[u64; D], bound: i64) -> (r: RingElem)
    requires
        0 <= bound <= 0x3FFF_FFFF_FFFF_FFFF,
    ensures
        forall|l: int| 0 <= l < D ==> r@[l] == challenge_coeff(words@[l], bound as int),
        forall|l: int| 0 <= l < D ==> abs_balanced_of(#[trigger] r@[l]) <= bound,
{
    let span = (2 * bound + 1) as u64;
    let mut c = [Fp::zero();D];
    let mut l: usize = 0;
    while l < D
        invariant
            l <= D,
            0 <= bound <= 0x3FFF_FFFF_FFFF_FFFF,
            span == 2 * bound + 1,
            forall|t: int|
                0 <= t < l ==> (#[trigger] c@[t])@ == challenge_coeff(words@[t], bound as int),
            forall|t: int| 0 <= t < l ==> abs_balanced_of((#[trigger] c@[t])@) <= bound,
        decreases D - l,
    {
        let digit = (words[l] % span) as i64 - bound;
        let v = Fp::from_i64(digit);
        proof {
            if digit >= 0 {
                crate::fp::lemma_fmod_small(digit as nat);
            } else {
                crate::fp::lemma_fmod_multiple(digit as int, 1);
                crate::fp::lemma_fmod_small((digit + Q) as nat);
            }
        }
        c[l] = v;
        l = l + 1;
    }
    let r = RingElem::from_coeffs(c);
    r
}

/// Sample one challenge from `C`: each coefficient uniform in `{-bound, ..., bound}`.
pub fn sample_challenge(rng: &mut ChaCha8Rng, params: &Params) -> (r: RingElem)
    ensures
        forall|l: int| 0 <= l < D ==> abs_balanced_of(#[trigger] r@[l]) <= 2,
{
    let bound = params.challenge_coeff_bound();
    let mut words = [0u64;D];
    let mut l: usize = 0;
    while l < D
        invariant
            l <= D,
        decreases D - l,
    {
        words[l] = chacha8_next_u64(rng);
        l = l + 1;
    }
    challenge_from_words(&words, bound)
}

/// Sample `n` independent challenges from `C`.
pub fn sample_challenges(rng: &mut ChaCha8Rng, params: &Params, n: usize) -> (r: Vec<RingElem>)
    ensures
        r@.len() == n,
        forall|i: int, l: int|
            0 <= i < n && 0 <= l < D ==> abs_balanced_of(#[trigger] r@[i]@[l]) <= 2,
{
    let mut out: Vec<RingElem> = Vec::new();
    let mut i: usize = 0;
    while i < n
        invariant
            i <= n,
            out@.len() == i,
            forall|t: int, l: int|
                0 <= t < i && 0 <= l < D ==> abs_balanced_of(#[trigger] out@[t]@[l]) <= 2,
        decreases n - i,
    {
        out.push(sample_challenge(rng, params));
        i = i + 1;
    }
    out
}

} // verus!
