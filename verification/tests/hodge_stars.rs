use lau_hodge_decomposition_agents::forms::SimplicialComplex;
use lau_hodge_decomposition_agents::hodge_star::hodge_star_matrix;

#[test]
fn test_hodge_star_matrix_dimensions() {
    let sc = SimplicialComplex::tetrahedron();
    for k in 0..=3 {
        let star = hodge_star_matrix(&sc, k);
        assert_eq!(star.nrows(), sc.num_simplices(3 - k));
        assert_eq!(star.ncols(), sc.num_simplices(k));
    }
}

#[test]
fn triangle_star_on_vertices_weights_by_vertex_count() {
    let sc = SimplicialComplex::triangle();
    let star = hodge_star_matrix(&sc, 0);
    assert_eq!((star.nrows(), star.ncols()), (1, 3));
    // one face: only its first place is filled, with weight 1/3
    assert_eq!(star.numerators.entries, vec![1, 0, 0]);
    assert_eq!(star.denominator, 3);
}

#[test]
fn triangle_star_on_edges_rotates_them() {
    let sc = SimplicialComplex::triangle();
    let star = hodge_star_matrix(&sc, 1);
    assert_eq!(star.numerators.entries, vec![0, 0, 1, 1, 0, 0, 0, 1, 0]);
    assert_eq!(star.denominator, 1);
}

#[test]
fn triangle_star_on_the_face_returns_to_a_vertex() {
    let sc = SimplicialComplex::triangle();
    let star = hodge_star_matrix(&sc, 2);
    assert_eq!((star.nrows(), star.ncols()), (3, 1));
    assert_eq!(star.numerators.entries, vec![1, 0, 0]);
    assert_eq!(star.denominator, 3);
}

#[test]
fn tetrahedron_star_between_edges_and_faces_uses_the_boundary() {
    let sc = SimplicialComplex::tetrahedron();
    let star2 = hodge_star_matrix(&sc, 2);
    assert_eq!(star2.numerators.entries, sc.boundary_matrices[1].entries);
    assert_eq!(star2.denominator, 1);
    let star1 = hodge_star_matrix(&sc, 1);
    assert_eq!((star1.nrows(), star1.ncols()), (4, 6));
    for r in 0..4 {
        for c in 0..6 {
            assert_eq!(star1.numerators.entries[r * 6 + c], sc.boundary_matrices[1].entries[c * 4 + r]);
        }
    }
}

#[test]
fn star_of_a_single_edge_is_the_identity() {
    let sc = SimplicialComplex::single_edge();
    // 1-dimensional: * maps the two vertices to the one edge, identity-like
    let star = hodge_star_matrix(&sc, 0);
    assert_eq!((star.nrows(), star.ncols()), (1, 2));
    assert_eq!(star.numerators.entries, vec![1, 0]);
    assert_eq!(star.denominator, 1);
}

#[test]
fn star_of_two_vertices_is_the_identity() {
    let sc = SimplicialComplex::two_vertices();
    let star = hodge_star_matrix(&sc, 0);
    assert_eq!((star.nrows(), star.ncols()), (2, 2));
    assert_eq!(star.numerators.entries, vec![1, 0, 0, 1]);
    assert_eq!(star.denominator, 1);
}

#[test]
fn star_of_an_empty_degree_is_empty() {
    let sc = SimplicialComplex::empty();
    let star = hodge_star_matrix(&sc, 0);
    assert_eq!((star.nrows(), star.ncols()), (0, 0));
    assert_eq!(star.denominator, 1);
}

#[test]
fn hodge_star_is_additive() {
    let sc = SimplicialComplex::triangle();
    let star = hodge_star_matrix(&sc, 1);
    let apply = |x: &[i64]| -> Vec<i64> {
        let m = &star.numerators;
        (0..m.rows).map(|r| (0..m.cols).map(|c| m.entries[r * m.cols + c] as i64 * x[c]).sum()).collect()
    };
    let s1 = apply(&[1, 0, 0]);
    let s2 = apply(&[0, 1, 0]);
    let s_sum = apply(&[1, 1, 0]);
    let expected: Vec<i64> = s1.iter().zip(s2.iter()).map(|(a, b)| a + b).collect();
    assert_eq!(s_sum, expected);
    assert_eq!(s_sum, vec![0, 1, 1]);
}
