use lau_hodge_decomposition_agents::complex::DeRhamComplex;
use lau_hodge_decomposition_agents::forms::SimplicialComplex;
use lau_hodge_decomposition_agents::betti::{euler_characteristic_of, sum_of_betti_numbers};
use lau_hodge_decomposition_agents::serre::serre_duality_pairs;

#[test]
fn euler_characteristic_from_betti_numbers() {
    assert_eq!(euler_characteristic_of(&vec![1, 0, 0]), 1);
    assert_eq!(euler_characteristic_of(&vec![1, 0, 0, 0]), 1);
    assert_eq!(euler_characteristic_of(&vec![2]), 2);
    assert_eq!(euler_characteristic_of(&vec![1, 2, 1]), 0);
    assert_eq!(euler_characteristic_of(&vec![]), 0);
}

#[test]
fn topological_complexity_sums_betti_numbers() {
    assert_eq!(sum_of_betti_numbers(&vec![1, 0, 0]), 1);
    assert_eq!(sum_of_betti_numbers(&vec![1, 2, 1]), 4);
}

#[test]
fn serre_duality_table() {
    assert_eq!(serre_duality_pairs(&vec![1, 0, 0]), vec![(0, 2, false), (1, 1, true), (2, 0, false)]);
    assert_eq!(serre_duality_pairs(&vec![1, 2, 1]), vec![(0, 2, true), (1, 1, true), (2, 0, true)]);
    assert_eq!(serre_duality_pairs(&vec![2]), vec![(0, 0, true)]);
}

#[test]
fn euler_poincare_on_the_tetrahedron() {
    let sc = SimplicialComplex::tetrahedron();
    let drc = DeRhamComplex::new(&sc);
    // ranks of d_0, d_1, d_2 on the solid tetrahedron
    let ranks = [3usize, 3, 1];
    let betti: Vec<usize> = (0..=sc.dimension)
        .map(|k| {
            let r = if k < ranks.len() { ranks[k] } else { 0 };
            let r_prev = if k == 0 { 0 } else { ranks[k - 1] };
            drc.cohomology_dimension_with_ranks(k, r, r_prev)
        })
        .collect();
    assert_eq!(betti, vec![1, 0, 0, 0]);
    assert_eq!(euler_characteristic_of(&betti), euler_characteristic_of(&sc.simplex_count));
    assert_eq!(euler_characteristic_of(&sc.simplex_count), 1);
}
