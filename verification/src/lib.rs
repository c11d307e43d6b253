//! Combinatorial Hodge theory on simplicial complexes, with the exact
//! part of the theory verified: boundary and coboundary operators, the
//! Hodge star, the Hodge Laplacian, the identity d ∘ d = 0, the structure
//! of the Hodge decomposition (existence, orthogonality, energy,
//! uniqueness), exact ranks and Betti numbers with the Euler–Poincaré
//! formula and dim ker Δ_k = β_k, and the agent classifications.

pub mod agent;
pub mod matrix;
pub mod forms;
pub mod complex;
pub mod hodge_star;
pub mod laplacian;
pub mod decomposition;
pub mod rank;
pub mod betti;
pub mod serre;
