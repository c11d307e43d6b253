use lau_hodge_decomposition_agents::complex::{
    d_squared_product, verify_d_squared_matrix, DeRhamComplex,
};
use lau_hodge_decomposition_agents::forms::{BoundaryMatrix, SimplicialComplex};

#[test]
fn test_d_squared_matrix_triangle() {
    let sc = SimplicialComplex::triangle();
    assert!(verify_d_squared_matrix(&sc, 0));
}

#[test]
fn test_de_rham_complex_triangle() {
    let sc = SimplicialComplex::triangle();
    let drc = DeRhamComplex::new(&sc);
    let results = drc.verify_complex();
    for (_, ok) in results {
        assert!(ok);
    }
}

#[test]
fn test_de_rham_complex_tetrahedron() {
    let sc = SimplicialComplex::tetrahedron();
    let drc = DeRhamComplex::new(&sc);
    let results = drc.verify_complex();
    for (_, ok) in results {
        assert!(ok);
    }
}

#[test]
fn de_rham_checks_every_degree_below_dimension() {
    let sc = SimplicialComplex::tetrahedron();
    let results = DeRhamComplex::new(&sc).verify_complex();
    assert_eq!(results, vec![(0, true), (1, true), (2, true)]);
}

#[test]
fn d_squared_product_tetrahedron_is_zero_matrix() {
    let sc = SimplicialComplex::tetrahedron();
    let p = d_squared_product(&sc, 0).expect("both maps are present");
    assert_eq!((p.rows, p.cols), (4, 4));
    assert!(p.entries.iter().all(|&x| x == 0));
    let q = d_squared_product(&sc, 1).expect("both maps are present");
    assert_eq!((q.rows, q.cols), (1, 6));
    assert!(q.is_zero());
    // d_3 does not exist on a 3-dimensional complex
    assert!(d_squared_product(&sc, 2).is_none());
}

#[test]
fn d_squared_detects_a_broken_complex() {
    // two edges between the same two vertices, and a "face" whose boundary
    // runs along both edges in the same direction: ∂∂ ≠ 0
    let d1 = BoundaryMatrix::new(2, 2, vec![-1, -1, 1, 1]);
    let d2 = BoundaryMatrix::new(2, 1, vec![1, 1]);
    let sc = SimplicialComplex::new(vec![2, 2, 1], vec![d1, d2]);
    assert!(!verify_d_squared_matrix(&sc, 0));
    let p = d_squared_product(&sc, 0).unwrap();
    assert_eq!(p.entries, vec![-2, 2]);
}

#[test]
fn exterior_derivative_is_transpose_of_boundary() {
    let sc = SimplicialComplex::triangle();
    let d0 = sc.exterior_derivative_matrix(0);
    assert_eq!((d0.rows, d0.cols), (3, 3));
    // d_0 = ∂_1^T: the row of edge e0=(0,1) is v1 - v0
    assert_eq!(d0.entries, vec![-1, 1, 0, 0, -1, 1, 1, 0, -1]);
    let d1 = sc.exterior_derivative_matrix(1);
    assert_eq!((d1.rows, d1.cols), (1, 3));
    assert_eq!(d1.entries, vec![1, 1, 1]);
    let d2 = sc.exterior_derivative_matrix(2);
    assert_eq!((d2.rows, d2.cols), (0, 0));
    assert!(d2.is_empty());
}

#[test]
fn d_of_de_rham_complex_matches_complex() {
    let sc = SimplicialComplex::square();
    let drc = DeRhamComplex::new(&sc);
    assert_eq!(drc.d(1).entries, sc.exterior_derivative_matrix(1).entries);
    assert_eq!(drc.d(1).entries, vec![1, 1, 1, 1]);
}

#[test]
fn cohomology_from_ranks_triangle() {
    let sc = SimplicialComplex::triangle();
    let drc = DeRhamComplex::new(&sc);
    // rank d_0 = 2, rank d_1 = 1, d_2 is empty
    assert_eq!(drc.cohomology_dimension_with_ranks(0, 2, 0), 1);
    assert_eq!(drc.cohomology_dimension_with_ranks(1, 1, 2), 0);
    assert_eq!(drc.cohomology_dimension_with_ranks(2, 7, 1), 0);
    // no 3-simplices
    assert_eq!(drc.cohomology_dimension_with_ranks(3, 0, 0), 0);
}

#[test]
fn cohomology_from_ranks_two_vertices() {
    let sc = SimplicialComplex::two_vertices();
    let drc = DeRhamComplex::new(&sc);
    assert_eq!(drc.cohomology_dimension_with_ranks(0, 5, 5), 2);
}

#[test]
fn exterior_derivative_is_additive() {
    let sc = SimplicialComplex::triangle();
    let d0 = sc.exterior_derivative_matrix(0);
    let apply = |x: &[i64]| -> Vec<i64> {
        (0..d0.rows).map(|r| (0..d0.cols).map(|c| d0.entries[r * d0.cols + c] as i64 * x[c]).sum()).collect()
    };
    let f1 = [1, 0, 0];
    let f2 = [0, 1, 0];
    let sum = [1, 1, 0];
    let expected: Vec<i64> = apply(&f1).iter().zip(apply(&f2).iter()).map(|(a, b)| a + b).collect();
    assert_eq!(apply(&sum), expected);
    assert_eq!(apply(&sum), vec![0, -1, 1]);
}
