//! The Ajtai commitment value and its `R_F`-module operations.
//!
//! A commitment is a vector in `R_F^kappa`; it supports addition, scaling by a ring
//! element and scaling by a field element.

use vstd::prelude::*;

use crate::fp::Fp;
use crate::ring::{
    lemma_ring_wf, ring_add, ring_mul, ring_scale, ring_seq, ring_zero, RingElem,
};

verus! {

broadcast use lemma_ring_wf;

/// An Ajtai commitment `c = A z` in `R_F^kappa`.
#[derive(Debug, Clone, PartialEq, Eq)]
pub struct Commitment(pub Vec<RingElem>);

impl View for Commitment {
    type V = Seq<Seq<nat>>;

    open spec fn view(&self) -> Seq<Seq<nat>> {
        ring_seq(self.0@)
    }
}

/// Slot-wise sum of two commitments of equal rank.
pub open spec fn commit_add(a: Seq<Seq<nat>>, b: Seq<Seq<nat>>) -> Seq<Seq<nat>> {
    Seq::new(a.len(), |i: int| ring_add(a[i], b[i]))
}

/// Slot-wise product with a ring element.
pub open spec fn commit_scale_ring(a: Seq<Seq<nat>>, rho: Seq<nat>) -> Seq<Seq<nat>> {
    Seq::new(a.len(), |i: int| ring_mul(a[i], rho))
}

/// Slot-wise scaling by a field residue.
pub open spec fn commit_scale_fp(a: Seq<Seq<nat>>, s: nat) -> Seq<Seq<nat>> {
    Seq::new(a.len(), |i: int| ring_scale(a[i], s))
}

impl Commitment {
    /// The all-zero commitment of rank `kappa`.
    pub fn zero(kappa: usize) -> (r: Commitment)
        ensures
            r@ == Seq::new(kappa as nat, |i: int| ring_zero()),
    {
        let mut v: Vec<RingElem> = Vec::new();
        let mut i: usize = 0;
        while i < kappa
            invariant
                i <= kappa,
                v@.len() == i,
                forall|t: int| 0 <= t < i ==> (#[trigger] v@[t])@ == ring_zero(),
            decreases kappa - i,
        {
            v.push(RingElem::zero());
            i = i + 1;
        }
        let r = Commitment(v);
        assert(r@ =~= Seq::new(kappa as nat, |i: int| ring_zero()));
        r
    }

    /// A copy of this commitment.
    pub fn duplicate(&self) -> (r: Commitment)
        ensures
            r@ == self@,
            r.0@ == self.0@,
    {
        Commitment(vstd::slice::slice_to_vec(self.0.as_slice()))
    }

    /// The module rank `kappa`.
    pub fn dim(&self) -> (r: usize)
        ensures
            r == self@.len(),
    {
        self.0.len()
    }

    /// Slot-wise equality, decided on residues.
    pub fn equals(&self, other: &Commitment) -> (r: bool)
        ensures
            r == (self@ == other@),
    {
        if self.0.len() != other.0.len() {
            assert(self@.len() != other@.len());
            return false;
        }
        let mut i: usize = 0;
        while i < self.0.len()
            invariant
                i <= self.0.len(),
                self.0.len() == other.0.len(),
                forall|t: int| 0 <= t < i ==> self@[t] == other@[t],
            decreases self.0.len() - i,
        {
            if !self.0[i].equals(&other.0[i]) {
                assert(self@[i as int] != other@[i as int]);
                return false;
            }
            i = i + 1;
        }
        assert(self@ =~= other@);
        true
    }

    /// Component-wise sum `self + other`.
    pub fn add(&self, other: &Commitment) -> (r: Commitment)
        requires
            self@.len() == other@.len(),
        ensures
            r@ == commit_add(self@, other@),
    {
        let mut v: Vec<RingElem> = Vec::new();
        let mut i: usize = 0;
        while i < self.0.len()
            invariant
                i <= self.0.len(),
                self.0.len() == other.0.len(),
                v@.len() == i,
                forall|t: int| 0 <= t < i ==> (#[trigger] v@[t])@ == ring_add(self@[t], other@[t]),
            decreases self.0.len() - i,
        {
            v.push(self.0[i] + other.0[i]);
            i = i + 1;
        }
        let r = Commitment(v);
        assert(r@ =~= commit_add(self@, other@));
        r
    }

    /// Scale by a ring element `rho`.
    pub fn scale_ring(&self, rho: &RingElem) -> (r: Commitment)
        ensures
            r@ == commit_scale_ring(self@, rho@),
    {
        let mut v: Vec<RingElem> = Vec::new();
        let mut i: usize = 0;
        while i < self.0.len()
            invariant
                i <= self.0.len(),
                v@.len() == i,
                forall|t: int| 0 <= t < i ==> (#[trigger] v@[t])@ == ring_mul(self@[t], rho@),
            decreases self.0.len() - i,
        {
            v.push(self.0[i] * *rho);
            i = i + 1;
        }
        let r = Commitment(v);
        assert(r@ =~= commit_scale_ring(self@, rho@));
        r
    }

    /// Scale by a base-field element `s`.
    pub fn scale_fp(&self, s: Fp) -> (r: Commitment)
        ensures
            r@ == commit_scale_fp(self@, s@),
    {
        let mut v: Vec<RingElem> = Vec::new();
        let mut i: usize = 0;
        while i < self.0.len()
            invariant
                i <= self.0.len(),
                v@.len() == i,
                forall|t: int| 0 <= t < i ==> (#[trigger] v@[t])@ == ring_scale(self@[t], s@),
            decreases self.0.len() - i,
        {
            v.push(self.0[i].scale(s));
            i = i + 1;
        }
        let r = Commitment(v);
        assert(r@ =~= commit_scale_fp(self@, s@));
        r
    }
}

} // verus!
