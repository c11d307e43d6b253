use lau_hodge_decomposition_agents::forms::{BoundaryMatrix, SimplicialComplex};
use lau_hodge_decomposition_agents::hodge_star::codifferential_matrix;
use lau_hodge_decomposition_agents::laplacian::hodge_laplacian_matrix;

fn apply(m: &BoundaryMatrix, x: &[i128]) -> Vec<i128> {
    assert_eq!(m.cols, x.len());
    (0..m.rows)
        .map(|r| (0..m.cols).map(|c| m.entries[r * m.cols + c] as i128 * x[c]).sum())
        .collect()
}

fn apply_wide(rows: usize, cols: usize, entries: &[i128], x: &[i128]) -> Vec<i128> {
    assert_eq!(cols, x.len());
    (0..rows)
        .map(|r| (0..cols).map(|c| entries[r * cols + c] * x[c]).sum())
        .collect()
}

fn inner(x: &[i128], y: &[i128]) -> i128 {
    assert_eq!(x.len(), y.len());
    x.iter().zip(y.iter()).map(|(a, b)| a * b).sum()
}

#[test]
fn constant_zero_form_is_harmonic_closed_and_coclosed() {
    let sc = SimplicialComplex::triangle();
    let lap = hodge_laplacian_matrix(&sc, 0);
    let d0 = sc.exterior_derivative_matrix(0);
    let x = vec![1, 1, 1];
    assert_eq!(apply_wide(lap.rows, lap.cols, &lap.entries, &x), vec![0, 0, 0]);
    assert_eq!(apply(&d0, &x), vec![0, 0, 0]);
    // a non-constant signal is neither harmonic nor closed
    let y = vec![1, 2, 3];
    assert_eq!(apply_wide(lap.rows, lap.cols, &lap.entries, &y), vec![-3, 0, 3]);
    assert_eq!(apply(&d0, &y), vec![1, 1, -2]);
}

#[test]
fn every_one_form_on_the_small_torus_is_harmonic() {
    let sc = SimplicialComplex::torus_small();
    let lap = hodge_laplacian_matrix(&sc, 1);
    assert_eq!((lap.rows, lap.cols), (2, 2));
    assert!(lap.is_zero());
    let x = vec![5, -7];
    assert_eq!(apply(&sc.exterior_derivative_matrix(1), &x), vec![0]);
    assert_eq!(apply(&codifferential_matrix(&sc, 1), &x), vec![0]);
}

#[test]
fn exact_and_coexact_one_forms_are_orthogonal_on_the_tetrahedron() {
    let sc = SimplicialComplex::tetrahedron();
    let alpha = vec![1, 2, 3, 4];
    let beta = vec![1, -1, 2, 0];
    let exact = apply(&sc.exterior_derivative_matrix(0), &alpha);
    let coexact = apply(&codifferential_matrix(&sc, 2), &beta);
    assert_eq!(exact.len(), 6);
    assert_eq!(coexact.len(), 6);
    assert!(exact.iter().any(|&v| v != 0));
    assert!(coexact.iter().any(|&v| v != 0));
    assert_eq!(inner(&exact, &coexact), 0);
}

#[test]
fn coexact_forms_are_coclosed() {
    for sc in [SimplicialComplex::triangle(), SimplicialComplex::square(), SimplicialComplex::tetrahedron()] {
        for k in 0..sc.dimension - 1 {
            let n = sc.num_simplices(k + 2);
            let beta: Vec<i128> = (0..n).map(|i| i as i128 * 3 - 1).collect();
            let coexact = apply(&codifferential_matrix(&sc, k + 2), &beta);
            let twice = apply(&codifferential_matrix(&sc, k + 1), &coexact);
            assert!(twice.iter().all(|&v| v == 0));
        }
    }
}

#[test]
fn energy_is_conserved_on_the_triangle() {
    let sc = SimplicialComplex::triangle();
    // ω = δ_1 β + h on vertices: there is no exact part in degree zero
    let beta = vec![1, 2, 3];
    let coexact = apply(&codifferential_matrix(&sc, 1), &beta);
    assert_eq!(coexact, vec![2, -1, -1]);
    let h = vec![1, 1, 1];
    let lap = hodge_laplacian_matrix(&sc, 0);
    assert_eq!(apply_wide(lap.rows, lap.cols, &lap.entries, &h), vec![0, 0, 0]);
    let omega: Vec<i128> = coexact.iter().zip(h.iter()).map(|(c, h)| c + h).collect();
    assert_eq!(omega, vec![3, 0, 0]);
    assert_eq!(inner(&coexact, &h), 0);
    assert_eq!(inner(&omega, &omega), inner(&coexact, &coexact) + inner(&h, &h));
}

#[test]
fn energy_identity_for_the_laplacian() {
    // <x, Δ_1 x> = |d_1 x|² + |δ_1 x|² on the tetrahedron
    let sc = SimplicialComplex::tetrahedron();
    let x = vec![3, -1, 4, 1, -5, 9];
    let lap = hodge_laplacian_matrix(&sc, 1);
    let lx = apply_wide(lap.rows, lap.cols, &lap.entries, &x);
    let dx = apply(&sc.exterior_derivative_matrix(1), &x);
    let sx = apply(&codifferential_matrix(&sc, 1), &x);
    assert_eq!(inner(&x, &lx), inner(&dx, &dx) + inner(&sx, &sx));
    assert!(inner(&x, &lx) > 0);
}

#[test]
fn laplacian_acts_as_d_delta_plus_delta_d() {
    let sc = SimplicialComplex::tetrahedron();
    let x = vec![2, 0, -1, 3, 1, -4];
    let lap = hodge_laplacian_matrix(&sc, 1);
    let lx = apply_wide(lap.rows, lap.cols, &lap.entries, &x);
    let d_delta = apply(&sc.exterior_derivative_matrix(0), &apply(&codifferential_matrix(&sc, 1), &x));
    let delta_d = apply(&codifferential_matrix(&sc, 2), &apply(&sc.exterior_derivative_matrix(1), &x));
    let sum: Vec<i128> = d_delta.iter().zip(delta_d.iter()).map(|(a, b)| a + b).collect();
    assert_eq!(lx, sum);
}

#[test]
fn a_one_form_on_the_triangle_splits_into_exact_and_coexact_parts() {
    // 3 ω = d_0 α + δ_2 β + h with ω = e0, α = (0, 2, 1), β = (1), h = 0
    let sc = SimplicialComplex::triangle();
    let omega = vec![1, 0, 0];
    let exact = apply(&sc.exterior_derivative_matrix(0), &[0, 2, 1]);
    let coexact = apply(&codifferential_matrix(&sc, 2), &[1]);
    assert_eq!(exact, vec![2, -1, -1]);
    assert_eq!(coexact, vec![1, 1, 1]);
    let sum: Vec<i128> = exact.iter().zip(coexact.iter()).map(|(a, b)| a + b).collect();
    let scaled: Vec<i128> = omega.iter().map(|w| 3 * w).collect();
    assert_eq!(sum, scaled);
    assert_eq!(inner(&exact, &coexact), 0);
}

#[test]
fn closed_cochains_on_the_triangle_are_exact() {
    // Δ_1 = 3 I: the only harmonic 1-form is zero, so a closed 1-form is exact
    let sc = SimplicialComplex::triangle();
    let lap = hodge_laplacian_matrix(&sc, 1);
    assert_eq!(lap.entries, vec![3, 0, 0, 0, 3, 0, 0, 0, 3]);
    let z = apply(&sc.exterior_derivative_matrix(0), &[4, -1, 7]);
    assert_eq!(apply(&sc.exterior_derivative_matrix(1), &z), vec![0]);
}

#[test]
fn a_cochain_orthogonal_to_exact_and_coexact_ones_is_harmonic() {
    // on the two isolated vertices every 0-cochain is harmonic and there are
    // no exact or coexact 0-cochains besides zero
    let sc = SimplicialComplex::two_vertices();
    let lap = hodge_laplacian_matrix(&sc, 0);
    assert_eq!(apply_wide(lap.rows, lap.cols, &lap.entries, &[3, -2]), vec![0, 0]);
}
