//! Error types of every layer.

use vstd::prelude::*;

verus! {

/// Errors that can arise in `F_q` / `F_{q^2}` arithmetic.
#[derive(Debug, Clone, PartialEq, Eq, Structural)]
pub enum FieldError {
    /// A raw `u64` that is not a canonical residue (`>= q`).
    NonCanonical(u64),
    /// Attempted to invert the zero element.
    InverseOfZero,
}

/// Errors in ring arithmetic, embedding, or decomposition.
#[derive(Debug, Clone, PartialEq, Eq, Structural)]
pub enum RingError {
    /// A vector length was not a multiple of the ring degree 54.
    Misaligned(usize),
    /// A coordinate exceeded the decomposition range: `got >= bound`.
    NormBound { got: u64, bound: u64 },
}

/// Errors in commitment, parameter validation, or challenge sampling.
#[derive(Debug, Clone, PartialEq, Eq)]
pub enum CommitError {
    /// The folding guard `(K + k) T (b - 1) < B` failed.
    GuardFailed { lhs: u64, rhs: u64 },
    /// A structural dimension mismatch (`B != b^k`, or a vector whose length
    /// disagrees with the public matrix).
    DimMismatch(String),
    /// A committed vector exceeded the norm bound the commitment binds at.
    NormBound { bound: u64 },
}

/// Errors in sum-check, the reductions, or verification.
#[derive(Debug, Clone, PartialEq, Eq)]
pub enum FoldError {
    /// The sum-check verifier's round check failed.
    SumCheck { round: usize },
    /// A reduction's verifier check failed.
    Reduction(String),
    /// A structural or dimension inconsistency in the relation instance.
    Malformed(String),
}

/// Errors in the IVC loop or the recursive verifier circuit.
#[derive(Debug, Clone, PartialEq, Eq)]
pub enum IvcError {
    /// A folding step failed (proving or verification).
    Step { step: usize, source: FoldError },
    /// The proof's step lists disagree, or the final accumulator differs from the
    /// verifier's.
    AccumulatorMismatch,
    /// The IO digest chain did not match.
    DigestMismatch,
    /// The recursive verifier circuit was unsatisfied.
    CircuitUnsat(String),
}

/// The message `witness length {got} != n_cols {want}`, rendered by std's `format!`.
#[verifier::external_body]
pub(crate) fn msg_witness_len(got: usize, want: usize) -> (r: String) {
    format!("witness length {} != n_cols {}", got, want)
}

/// The message `B = {big_b} != b^k = {pow}`, rendered by std's `format!`.
#[verifier::external_body]
pub(crate) fn msg_big_b(big_b: u64, pow: u64) -> (r: String) {
    format!("B = {} != b^k = {}", big_b, pow)
}

/// The message `sum-check has {got} rounds, expected {want}`, rendered by std's `format!`.
#[verifier::external_body]
pub(crate) fn msg_round_count(got: usize, want: usize) -> (r: String) {
    format!("sum-check has {} rounds, expected {}", got, want)
}

/// The message `round {round} polynomial has {got} evals, expected {want}`, rendered by
/// std's `format!`.
#[verifier::external_body]
pub(crate) fn msg_round_evals(round: usize, got: usize, want: usize) -> (r: String) {
    format!("round {} polynomial has {} evals, expected {}", round, got, want)
}

/// The message `Π_DEC expects {k} children`, rendered by std's `format!`.
#[verifier::external_body]
pub(crate) fn msg_dec_children(k: usize) -> (r: String) {
    format!("Π_DEC expects {} children", k)
}

/// The message `Π_DEC evaluation additivity failed at j={j}`, rendered by std's `format!`.
#[verifier::external_body]
pub(crate) fn msg_dec_eval(j: usize) -> (r: String) {
    format!("Π_DEC evaluation additivity failed at j={}", j)
}

/// The message of a decomposition that met a coefficient outside the norm bound,
/// rendered by std's `format!`.
#[verifier::external_body]
pub(crate) fn msg_dec_split(got: u64, bound: u64) -> (r: String) {
    format!("Π_DEC split_b: norm bound violated: ‖·‖∞ = {} not < {}", got, bound)
}

/// The message of a decomposition whose witness length differs from the matrix width,
/// rendered by std's `format!`.
#[verifier::external_body]
pub(crate) fn msg_dec_commit(got: usize, want: usize) -> (r: String) {
    format!("Π_DEC commit: dimension mismatch: witness length {} != n_cols {}", got, want)
}

} // verus!
