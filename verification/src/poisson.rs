//! Poisson brackets on R^{2n}: {f,g} = Σ_i (∂f/∂q_i ∂g/∂p_i - ∂f/∂p_i ∂g/∂q_i).
use vstd::prelude::*;

verus! {

/// Kronecker delta δ_ij.
pub open spec fn kronecker(i: int, j: int) -> int {
    if i == j {
        1
    } else {
        0
    }
}

/// Poisson bracket structure on a 2n-dimensional phase space.
pub struct PoissonBracket {
    /// Half-dimension n
    pub n: usize,
}

impl PoissonBracket {
    /// Create a Poisson bracket on R^{2n}.
    pub fn new(n: usize) -> (pb: Self)
        ensures
            pb.n == n,
    {
        Self { n }
    }

    /// The canonical coordinate brackets {q_i, q_j}, {p_i, p_j}, {q_i, p_j}
    /// of this phase space.
    pub fn canonical_brackets(&self) -> (cb: CanonicalBrackets)
        ensures
            cb.half_dim() == self.n,
    {
        CanonicalBrackets { n: self.n }
    }
}

/// Canonical Poisson bracket relations, with exact integer values.
pub struct CanonicalBrackets {
    n: usize,
}

impl CanonicalBrackets {
    /// The half-dimension n of the phase space these relations belong to.
    pub closed spec fn half_dim(self) -> nat {
        self.n as nat
    }

    /// {q_i, q_j} = 0
    pub fn qq(&self, i: usize, j: usize) -> (v: i64)
        ensures
            v == 0,
    {
        0
    }

    /// {p_i, p_j} = 0
    pub fn pp(&self, i: usize, j: usize) -> (v: i64)
        ensures
            v == 0,
    {
        0
    }

    /// {q_i, p_j} = δ_ij
    pub fn qp(&self, i: usize, j: usize) -> (v: i64)
        ensures
            v == kronecker(i as int, j as int),
            v == (if i == j { 1i64 } else { 0i64 }),
    {
        if i == j {
            1
        } else {
            0
        }
    }
}

/// The canonical relations are symmetric in the indices: {q_i, p_j} = {q_j, p_i},
/// and the position-position and momentum-momentum brackets vanish.
pub proof fn lemma_canonical_relations_symmetric(i: int, j: int)
    ensures
        kronecker(i, j) == kronecker(j, i),
        kronecker(i, i) == 1,
        i != j ==> kronecker(i, j) == 0,
{
}

} // verus!
