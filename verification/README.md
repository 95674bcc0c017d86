# lau-symplectic-geometry

Symplectic geometry for Hamiltonian mechanics: symplectic forms and matrices,
Hamiltonian systems and symplectic integrators, Poisson brackets, cotangent
bundles, Darboux coordinates, Liouville's theorem and Poincaré recurrence.

## Layout

- `src/` — the verified library (Verus). It holds what the geometry decides
  exactly, on integers and indices:
  - `structure`: the canonical matrix J = [0 I; -I 0] with exact entries, the
    2n × 2n shape rule for forms and symplectic matrices, and the proved laws
    Jᵀ = -J, J² = -I, JᵀJ = I and JᵀJJ = J;
  - `poisson`: `PoissonBracket`, `CanonicalBrackets` ({q_i,q_j} = {p_i,p_j} = 0,
    {q_i,p_j} = δ_ij);
  - `darboux`: the greedy search for symplectic pairs of basis vectors, with the
    proofs that a successful search partitions the basis, that the search is
    deterministic, and that a failure is final;
  - `poincare`: first return, all returns and the recurrence span of a
    trajectory, given which points lie near the start;
  - `liouville`: `LiouvilleTheorem` and the n! that normalises the volume form.
- `app/` — the floating-point layer (nalgebra matrices of f64, serde derives,
  Hamiltonians as closures), which calls the library for every decision above.
- `tests/` — tests of the library.
