use lau_hodge_decomposition_agents::forms::SimplicialComplex;
use lau_hodge_decomposition_agents::hodge_star::codifferential_matrix;
use lau_hodge_decomposition_agents::laplacian::hodge_laplacian_matrix;

#[test]
fn test_laplacian_symmetric() {
    let sc = SimplicialComplex::triangle();
    let lap = hodge_laplacian_matrix(&sc, 0);
    assert_eq!(lap.rows, lap.cols);
    let n = lap.rows;
    for i in 0..n {
        for j in i + 1..n {
            assert!(lap.entries[i * n + j] == lap.entries[j * n + i], "Not symmetric at ({},{})", i, j);
        }
    }
}

#[test]
fn test_laplacian_matrix_square() {
    let sc = SimplicialComplex::triangle();
    for k in 0..=2 {
        let lap = hodge_laplacian_matrix(&sc, k);
        assert_eq!(lap.rows, lap.cols);
        assert_eq!(lap.rows, sc.num_simplices(k));
    }
}

#[test]
fn triangle_laplacians_exact() {
    let sc = SimplicialComplex::triangle();
    // graph Laplacian of the triangle
    assert_eq!(hodge_laplacian_matrix(&sc, 0).entries, vec![2, -1, -1, -1, 2, -1, -1, -1, 2]);
    // Δ_1 = 3 I: no harmonic 1-forms on a filled triangle
    assert_eq!(hodge_laplacian_matrix(&sc, 1).entries, vec![3, 0, 0, 0, 3, 0, 0, 0, 3]);
    assert_eq!(hodge_laplacian_matrix(&sc, 2).entries, vec![3]);
    let beyond = hodge_laplacian_matrix(&sc, 3);
    assert_eq!((beyond.rows, beyond.cols), (0, 0));
}

#[test]
fn two_vertices_laplacian_is_zero() {
    let sc = SimplicialComplex::two_vertices();
    let lap = hodge_laplacian_matrix(&sc, 0);
    assert_eq!((lap.rows, lap.cols), (2, 2));
    assert!(lap.is_zero());
}

#[test]
fn tetrahedron_laplacian_diagonals() {
    let sc = SimplicialComplex::tetrahedron();
    let l0 = hodge_laplacian_matrix(&sc, 0);
    // every vertex of K4 has degree 3
    for i in 0..4 {
        assert_eq!(l0.entries[i * 4 + i], 3);
    }
    let l1 = hodge_laplacian_matrix(&sc, 1);
    for i in 0..6 {
        assert_eq!(l1.entries[i * 6 + i], 4);
    }
}

#[test]
fn codifferential_is_transpose_of_d() {
    let sc = SimplicialComplex::triangle();
    let delta1 = codifferential_matrix(&sc, 1);
    assert_eq!((delta1.rows, delta1.cols), (3, 3));
    assert_eq!(delta1.entries, sc.boundary_matrices[0].entries);
    let delta0 = codifferential_matrix(&sc, 0);
    assert_eq!((delta0.rows, delta0.cols), (3, 0));
    let delta2 = codifferential_matrix(&sc, 2);
    assert_eq!(delta2.entries, vec![1, 1, 1]);
}

#[test]
fn laplacian_is_additive() {
    let sc = SimplicialComplex::triangle();
    let lap = hodge_laplacian_matrix(&sc, 0);
    let apply = |x: &[i128]| -> Vec<i128> {
        (0..lap.rows).map(|r| (0..lap.cols).map(|c| lap.entries[r * lap.cols + c] * x[c]).sum()).collect()
    };
    let a = apply(&[1, 0, 0]);
    let b = apply(&[0, 1, 0]);
    let sum = apply(&[1, 1, 0]);
    let expected: Vec<i128> = a.iter().zip(b.iter()).map(|(x, y)| x + y).collect();
    assert_eq!(sum, expected);
    assert_eq!(sum, vec![1, 1, -2]);
}
