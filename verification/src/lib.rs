//! Symplectic geometry for Hamiltonian mechanics: the exact, combinatorial core.
//!
//! The modules hold what the geometry decides with integers and indices: the
//! canonical structure matrix J = [0 I; -I 0], the shape rules for symplectic
//! matrices and forms, the canonical Poisson bracket relations, the greedy
//! pairing of basis vectors behind Darboux coordinates, the detection of
//! Poincaré returns, and the factorial that normalises the Liouville volume.

pub mod poisson;
pub mod structure;
pub mod darboux;
pub mod poincare;
pub mod liouville;

pub use liouville::LiouvilleTheorem;
pub use poisson::{CanonicalBrackets, PoissonBracket};
