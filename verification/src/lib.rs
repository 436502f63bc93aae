//! Lattice-based folding over the Goldilocks field, with machine-checked contracts.
//!
//! Layers, bottom-up: the prime field `Fp` and its quadratic extension `Ext2`;
//! the cyclotomic ring `R_F = F[X]/(X^54 + X^27 + 1)` and its extension `R_K`;
//! the Ajtai commitment; the folding reductions; the IVC loop and a small
//! constraint-system builder for the recursive verifier.

pub mod error;
pub mod fermat;
pub mod ext2;
pub mod fold;
pub mod fp;
pub mod ivc;
pub mod bar;
pub mod ccs_complete;
pub mod ccs_degree;
pub mod challenge;
pub mod circuit;
pub mod commit;
pub mod decomp;
pub mod maps;
pub mod multilinear;
pub mod norm;
pub mod params;
pub mod pi_ccs;
pub mod pi_dec;
pub mod pi_rlc;
pub mod poly;
pub mod pp;
pub mod ring;
pub mod ring_k;
pub mod s_action;
pub mod sc_complete;
pub mod sumcheck;
pub mod transcript;
pub mod types;

use vstd::prelude::*;

verus! {

/// The Goldilocks prime modulus `q = 2^64 - 2^32 + 1`.
pub const Q: u64 = 0xFFFF_FFFF_0000_0001;

} // verus!
