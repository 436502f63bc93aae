# superneo

Lattice-based folding (SuperNeo style) over the Goldilocks field, written in Verus:
the library's functions carry `requires` / `ensures` contracts that the verifier
checks. The only exceptions are the calls into Blake3, ChaCha8 and `format!`, which sit
behind small trusted wrappers (the `format!` ones, which render error messages, promise
nothing).

Layers, bottom-up:

- `fp`, `ext2`, `fermat`: the prime field `F_q`, `q = 2^64 - 2^32 + 1`, and its
  quadratic extension `K = F_q[u]/(u^2 - 7)`; contracts are stated over residues.
  `fermat` proves Fermat's little theorem for `q` (Lucas's certificate with the
  generator `7`), hence the inverse laws of both fields.
- `ring`, `ring_k`, `maps`, `norm`, `decomp`, `s_action`: the cyclotomic ring
  `R_F = F[X]/(X^54 + X^27 + 1)`, its extension `R_K`, the coefficient maps, norms and
  base-`b` decomposition.
- `pp`, `commit`, `params`, `challenge`, `bar`: Ajtai commitments, parameter checks,
  the challenge set and the `bar` embedding.
- `transcript`: the Fiat-Shamir transcript over Blake3.
- `multilinear`, `sumcheck`, `sc_complete`: multilinear extensions, the sum-check
  protocol, and its completeness law.
- `poly`: polynomials in one variable over `K`; a polynomial of degree at most `d` is
  the Lagrange interpolation of its values at `0, ..., d`.
- `pi_ccs`, `pi_rlc`, `pi_dec`, `fold`: the three reductions and the folding step.
- `ccs_degree`, `ccs_complete`: the Π_CCS summand has the round degree along lines, and
  Π_CCS is complete: for witnesses that satisfy the structure, are small and match the
  carried claims, the prover's proof passes every check of the verifier.
- `ivc`: the IVC loop over a chain of steps; for steps whose witnesses satisfy the
  structure and have small coordinates, the proof it returns is accepted.
- `circuit`: a constraint-system builder and the in-circuit verifiers of the reductions.

`tests/` holds the test suite; `app/` holds the serde and error-trait copies of the
library's types.

Verify with Verus on `src/lib.rs`; the crate builds as an ordinary library.
