# lau-hodge-decomposition-agents

Combinatorial Hodge theory on simplicial complexes, applied to agent
signals: every k-form splits as ω = dα + δβ + h (exact + coexact +
harmonic).

The library in `src/` holds the exact, integer part of the theory, verified
with Verus:

- `matrix`: the mathematical model of integer matrices (`Mat`), finite sums,
  the inner product, and the algebra the proofs rest on, including the
  orthogonal splitting of a vector against the columns of a matrix;
  `IntMatrix` for exact products.
- `forms`: boundary matrices and simplicial complexes, with the standard
  complexes (triangle, tetrahedron, square, ...) proved to be chain complexes.
- `complex`: the exterior derivative, d² = 0, exact forms are closed, and
  cohomology dimensions from the ranks of d.
- `hodge_star`: the Hodge star as an exact rational matrix, and the
  codifferential δ, the adjoint of d.
- `laplacian`: the Hodge Laplacian Δ = dδ + δd, symmetric and positive
  semi-definite; harmonic means closed and coclosed.
- `decomposition`: the Hodge decomposition exists, its three subspaces are
  mutually orthogonal, energy is conserved, the decomposition is unique, and
  every cohomology class has exactly one harmonic representative.
- `rank`: exact ranks and nullities of integer matrices, by elimination
  with checked certificates.
- `betti`, `serre`: exact Betti numbers (agreeing with dim ker Δ_k), the
  Euler characteristic with Euler–Poincaré, Serre duality tables.
- `agent`: the classifications of agent behaviour.

`app/` holds what works on real-valued forms with nalgebra (projections,
eigenvalues, agent analyses, and SVD ranks where exact ranks would
overflow) and the serde types, on top of the
verified library.
