use lau_hodge_decomposition_agents::betti::{betti_number, betti_numbers, euler_characteristic};
use lau_hodge_decomposition_agents::complex::DeRhamComplex;
use lau_hodge_decomposition_agents::forms::{BoundaryMatrix, SimplicialComplex};
use lau_hodge_decomposition_agents::laplacian::harmonic_dimension;
use lau_hodge_decomposition_agents::matrix::IntMatrix;
use lau_hodge_decomposition_agents::rank::{nullity, rank};

#[test]
fn test_betti_triangle_h0() {
    let sc = SimplicialComplex::triangle();
    assert_eq!(betti_number(&sc, 0).unwrap(), 1); // connected
}

#[test]
fn test_betti_triangle_h1() {
    let sc = SimplicialComplex::triangle();
    assert_eq!(betti_number(&sc, 1).unwrap(), 0); // contractible
}

#[test]
fn test_betti_triangle_h2() {
    let sc = SimplicialComplex::triangle();
    assert_eq!(betti_number(&sc, 2).unwrap(), 0);
}

#[test]
fn test_betti_two_vertices_h0() {
    let sc = SimplicialComplex::two_vertices();
    assert_eq!(betti_number(&sc, 0).unwrap(), 2);
}

#[test]
fn test_betti_tetrahedron_h0() {
    let sc = SimplicialComplex::tetrahedron();
    assert_eq!(betti_number(&sc, 0).unwrap(), 1);
}

#[test]
fn test_betti_tetrahedron_h1() {
    let sc = SimplicialComplex::tetrahedron();
    assert_eq!(betti_number(&sc, 1).unwrap(), 0);
}

#[test]
fn test_betti_tetrahedron_h2() {
    let sc = SimplicialComplex::tetrahedron();
    assert_eq!(betti_number(&sc, 2).unwrap(), 0);
}

#[test]
fn test_euler_characteristic_triangle() {
    let sc = SimplicialComplex::triangle();
    // β_0 - β_1 + β_2 = 1 - 0 + 0 = 1
    assert_eq!(euler_characteristic(&sc).unwrap(), 1);
}

#[test]
fn test_euler_characteristic_tetrahedron() {
    let sc = SimplicialComplex::tetrahedron();
    // β_0 - β_1 + β_2 - β_3 = 1 - 0 + 0 - 0 = 1
    assert_eq!(euler_characteristic(&sc).unwrap(), 1);
}

#[test]
fn test_euler_characteristic_two_vertices() {
    let sc = SimplicialComplex::two_vertices();
    // β_0 = 2
    assert_eq!(euler_characteristic(&sc).unwrap(), 2);
}

#[test]
fn test_betti_numbers_all_triangle() {
    let sc = SimplicialComplex::triangle();
    let betti = betti_numbers(&sc).unwrap();
    assert_eq!(betti, vec![1, 0, 0]);
}

#[test]
fn test_betti_numbers_all_tetrahedron() {
    let sc = SimplicialComplex::tetrahedron();
    let betti = betti_numbers(&sc).unwrap();
    assert_eq!(betti, vec![1, 0, 0, 0]);
}

#[test]
fn test_betti_single_edge() {
    let sc = SimplicialComplex::single_edge();
    assert_eq!(betti_number(&sc, 0).unwrap(), 1);
    assert_eq!(betti_number(&sc, 1).unwrap(), 0);
}

#[test]
fn test_cohomology_triangle_h0() {
    let sc = SimplicialComplex::triangle();
    let drc = DeRhamComplex::new(&sc);
    // Triangle is connected, so H^0 = 1
    assert_eq!(drc.cohomology_dimension(0).unwrap(), 1);
}

#[test]
fn test_cohomology_triangle_h1() {
    let sc = SimplicialComplex::triangle();
    let drc = DeRhamComplex::new(&sc);
    // Triangle is contractible, so H^1 = 0
    assert_eq!(drc.cohomology_dimension(1).unwrap(), 0);
}

#[test]
fn test_cohomology_two_vertices_h0() {
    let sc = SimplicialComplex::two_vertices();
    let drc = DeRhamComplex::new(&sc);
    // Two disconnected vertices, so H^0 = 2
    assert_eq!(drc.cohomology_dimension(0).unwrap(), 2);
}

#[test]
fn test_cohomology_tetrahedron_h0() {
    let sc = SimplicialComplex::tetrahedron();
    let drc = DeRhamComplex::new(&sc);
    assert_eq!(drc.cohomology_dimension(0).unwrap(), 1);
}

#[test]
fn test_cohomology_tetrahedron_h1() {
    let sc = SimplicialComplex::tetrahedron();
    let drc = DeRhamComplex::new(&sc);
    assert_eq!(drc.cohomology_dimension(1).unwrap(), 0);
}

#[test]
fn ranks_of_the_standard_boundaries() {
    let tet = SimplicialComplex::tetrahedron();
    let drc = DeRhamComplex::new(&tet);
    assert_eq!(drc.rank_of_d(0), Some(3));
    assert_eq!(drc.rank_of_d(1), Some(3));
    assert_eq!(drc.rank_of_d(2), Some(1));
    assert_eq!(drc.rank_of_d(3), Some(0));
    let fig = SimplicialComplex::figure_eight();
    assert_eq!(betti_numbers(&fig).unwrap(), vec![1, 0, 0]);
    let torus = SimplicialComplex::torus_small();
    // all boundaries vanish: every cochain is a cocycle and none a coboundary
    assert_eq!(betti_numbers(&torus).unwrap(), vec![1, 2, 1]);
    assert_eq!(euler_characteristic(&torus).unwrap(), 0);
}

#[test]
fn rank_of_small_matrices() {
    assert_eq!(rank(&BoundaryMatrix::new(2, 2, vec![1, 2, 2, 4])), Some(1));
    assert_eq!(rank(&BoundaryMatrix::new(2, 3, vec![1, 0, 2, 0, 3, 5])), Some(2));
    assert_eq!(rank(&BoundaryMatrix::new(3, 3, vec![2, 0, 0, 0, 0, 0, 0, 0, 7])), Some(2));
    assert_eq!(rank(&BoundaryMatrix::zeros(3, 2)), Some(0));
    assert_eq!(rank(&BoundaryMatrix::zeros(0, 4)), Some(0));
    assert_eq!(rank(&BoundaryMatrix::new(3, 3, vec![1, 1, 0, 0, 1, 1, 1, 0, 1])), Some(3));
}

#[test]
fn euler_characteristic_matches_simplex_counts() {
    for sc in [
        SimplicialComplex::triangle(),
        SimplicialComplex::tetrahedron(),
        SimplicialComplex::square(),
        SimplicialComplex::figure_eight(),
        SimplicialComplex::single_edge(),
    ] {
        let mut alt: i64 = 0;
        for (k, &n) in sc.simplex_count.iter().enumerate() {
            alt += if k % 2 == 0 { n as i64 } else { -(n as i64) };
        }
        assert_eq!(euler_characteristic(&sc).unwrap(), alt);
    }
}

#[test]
fn harmonic_dimension_equals_betti_number() {
    for sc in [
        SimplicialComplex::triangle(),
        SimplicialComplex::tetrahedron(),
        SimplicialComplex::two_vertices(),
        SimplicialComplex::single_edge(),
        SimplicialComplex::square(),
        SimplicialComplex::figure_eight(),
        SimplicialComplex::torus_small(),
    ] {
        let betti = betti_numbers(&sc).unwrap();
        for k in 0..=sc.dimension {
            assert_eq!(harmonic_dimension(&sc, k), Some(betti[k]));
        }
    }
    let torus = SimplicialComplex::torus_small();
    assert_eq!(harmonic_dimension(&torus, 1), Some(2));
}

#[test]
fn nullity_of_small_matrices() {
    let m = IntMatrix { rows: 2, cols: 3, entries: vec![1, 2, 3, 2, 4, 6] };
    assert_eq!(nullity(&m), Some(2));
    let m = IntMatrix { rows: 3, cols: 3, entries: vec![2, -1, -1, -1, 2, -1, -1, -1, 2] };
    assert_eq!(nullity(&m), Some(1));
    let m = IntMatrix { rows: 2, cols: 2, entries: vec![3, 0, 0, 3] };
    assert_eq!(nullity(&m), Some(0));
    let m = IntMatrix { rows: 0, cols: 3, entries: vec![] };
    assert_eq!(nullity(&m), Some(3));
}
