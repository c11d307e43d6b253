use lau_hodge_decomposition_agents::forms::{BoundaryMatrix, SimplicialComplex};

#[test]
fn boundary_matrix_get_set_row_major() {
    let mut m = BoundaryMatrix::zeros(2, 3);
    assert_eq!(m.entries, vec![0; 6]);
    m.set(1, 2, 7);
    m.set(0, 1, -4);
    assert_eq!(m.get(1, 2), 7);
    assert_eq!(m.get(0, 1), -4);
    assert_eq!(m.entries, vec![0, -4, 0, 0, 0, 7]);
}

#[test]
fn boundary_matrix_transpose() {
    let m = BoundaryMatrix::new(2, 3, vec![1, 2, 3, 4, 5, 6]);
    let t = m.transpose();
    assert_eq!((t.rows, t.cols), (3, 2));
    assert_eq!(t.entries, vec![1, 4, 2, 5, 3, 6]);
    assert_eq!(t.transpose().entries, m.entries);
}

#[test]
fn boundary_matrix_product() {
    let a = BoundaryMatrix::new(2, 2, vec![1, 2, 3, 4]);
    let b = BoundaryMatrix::new(2, 1, vec![5, -6]);
    let p = a.product(&b);
    assert_eq!((p.rows, p.cols), (2, 1));
    assert_eq!(p.entries, vec![-7, -9]);
    let big = BoundaryMatrix::new(1, 2, vec![i32::MIN, i32::MIN]);
    let big_t = big.transpose();
    let q = big.product(&big_t);
    assert_eq!(q.entries, vec![2 * (i32::MIN as i128) * (i32::MIN as i128)]);
}

#[test]
fn boundary_matrix_emptiness() {
    assert!(BoundaryMatrix::zeros(0, 3).is_empty());
    assert!(BoundaryMatrix::zeros(3, 0).is_empty());
    assert!(!BoundaryMatrix::zeros(1, 1).is_empty());
}

#[test]
fn complex_dimension_and_counts() {
    let sc = SimplicialComplex::new(vec![4, 6, 4, 1], vec![]);
    assert_eq!(sc.dimension, 3);
    assert_eq!(sc.num_simplices(1), 6);
    assert_eq!(sc.num_simplices(4), 0);
    let none = SimplicialComplex::new(vec![], vec![]);
    assert_eq!(none.dimension, 0);
    assert_eq!(none.num_simplices(0), 0);
}

#[test]
fn boundary_accessor_is_one_based() {
    let sc = SimplicialComplex::triangle();
    assert!(sc.boundary(0).is_none());
    let b1 = sc.boundary(1).unwrap();
    assert_eq!((b1.rows, b1.cols), (3, 3));
    assert_eq!(b1.entries, vec![-1, 0, 1, 1, -1, 0, 0, 1, -1]);
    let b2 = sc.boundary(2).unwrap();
    assert_eq!((b2.rows, b2.cols), (3, 1));
    assert!(sc.boundary(3).is_none());
}

#[test]
fn standard_complexes_shapes() {
    let t = SimplicialComplex::tetrahedron();
    assert_eq!(t.simplex_count, vec![4, 6, 4, 1]);
    assert_eq!(t.boundary_matrices.len(), 3);
    assert_eq!(t.boundary_matrices[2].entries, vec![-1, 1, -1, 1]);
    let e = SimplicialComplex::single_edge();
    assert_eq!(e.boundary_matrices[0].entries, vec![-1, 1]);
    let f = SimplicialComplex::figure_eight();
    assert_eq!(f.simplex_count, vec![5, 6, 2]);
    assert_eq!((f.boundary_matrices[1].rows, f.boundary_matrices[1].cols), (6, 2));
    let s = SimplicialComplex::square();
    assert_eq!(s.boundary_matrices[0].entries, vec![-1, 0, 0, 1, 1, -1, 0, 0, 0, 1, -1, 0, 0, 0, 1, -1]);
    let tor = SimplicialComplex::torus_small();
    assert!(tor.boundary_matrices.iter().all(|m| m.entries.iter().all(|&x| x == 0)));
    assert_eq!(SimplicialComplex::two_vertices().dimension, 0);
    assert_eq!(SimplicialComplex::empty().num_simplices(0), 0);
}

#[test]
fn duplicate_copies_everything() {
    let m = BoundaryMatrix::new(1, 2, vec![3, -3]);
    let c = m.duplicate();
    assert_eq!((c.rows, c.cols), (1, 2));
    assert_eq!(c.entries, vec![3, -3]);
}
