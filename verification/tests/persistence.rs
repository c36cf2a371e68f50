use witness_topology::persistence::{
    betti_numbers, compute_persistence, filtration_value, reduce_boundary, PersistencePair,
};
use witness_topology::witness::SimplicialComplex;

/// The distance key of a non-negative distance: it orders as the distance does.
fn key(d: f64) -> u64 {
    if d.is_nan() || d <= 0.0 {
        0
    } else if d.is_infinite() {
        u64::MAX
    } else {
        d.to_bits()
    }
}

fn keys(dist: &[Vec<f64>]) -> Vec<Vec<u64>> {
    dist.iter().map(|row| row.iter().map(|&d| key(d)).collect()).collect()
}

#[test]
fn test_persistence_single_point() {
    let mut c = SimplicialComplex::new();
    c.add_simplex(vec![0]);
    let dist = keys(&[vec![0.0]]);
    let pairs = compute_persistence(&c, &dist);
    assert!(pairs.len() >= 1);
    assert_eq!(pairs[0].dim, 0);
    assert!(pairs[0].death.is_none());
}

#[test]
fn test_persistence_edge() {
    let mut c = SimplicialComplex::new();
    c.add_simplex(vec![0, 1]);
    let dist = keys(&[vec![0.0, 1.0], vec![1.0, 0.0]]);
    let pairs = compute_persistence(&c, &dist);
    // One connected component persists
    let h0: Vec<_> = pairs.iter().filter(|p| p.dim == 0).collect();
    assert!(h0.len() >= 1);
}

#[test]
fn test_persistence_triangle() {
    let mut c = SimplicialComplex::new();
    c.add_simplex(vec![0, 1, 2]);
    let dist = keys(&[
        vec![0.0, 1.0, 1.0],
        vec![1.0, 0.0, 1.0],
        vec![1.0, 0.0, 0.0],
    ]);
    let pairs = compute_persistence(&c, &dist);
    let h0: Vec<_> = pairs.iter().filter(|p| p.dim == 0).collect();
    assert!(h0.len() >= 1);
}

#[test]
fn test_betti_numbers() {
    let pairs = vec![
        PersistencePair {
            dim: 0,
            birth: key(0.0),
            death: None,
        },
        PersistencePair {
            dim: 0,
            birth: key(0.0),
            death: Some(key(1.0)),
        },
    ];
    let betti = betti_numbers(&pairs, key(0.5));
    assert_eq!(betti[0], 2); // both alive at 0.5
}

#[test]
fn test_empty_complex_persistence() {
    let c = SimplicialComplex::new();
    let dist: Vec<Vec<u64>> = vec![];
    let pairs = compute_persistence(&c, &dist);
    assert!(pairs.is_empty());
}

#[test]
fn edge_kills_the_younger_component() {
    let mut c = SimplicialComplex::new();
    c.add_simplex(vec![0, 1]);
    let dist = keys(&[vec![0.0, 1.0], vec![1.0, 0.0]]);
    let pairs = compute_persistence(&c, &dist);
    assert_eq!(
        pairs,
        vec![
            PersistencePair { dim: 0, birth: 0, death: Some(key(1.0)) },
            PersistencePair { dim: 0, birth: 0, death: None },
        ]
    );
}

#[test]
fn hollow_triangle_has_a_loop_that_lives_forever() {
    let mut c = SimplicialComplex::new();
    c.add_simplex(vec![0, 1]);
    c.add_simplex(vec![1, 2]);
    c.add_simplex(vec![0, 2]);
    let dist = keys(&[
        vec![0.0, 1.0, 2.0],
        vec![1.0, 0.0, 1.5],
        vec![2.0, 1.5, 0.0],
    ]);
    let pairs = compute_persistence(&c, &dist);
    assert_eq!(
        pairs,
        vec![
            PersistencePair { dim: 0, birth: 0, death: Some(key(1.0)) },
            PersistencePair { dim: 0, birth: 0, death: Some(key(1.5)) },
            PersistencePair { dim: 0, birth: 0, death: None },
            PersistencePair { dim: 1, birth: key(2.0), death: None },
        ]
    );
    let betti = betti_numbers(&pairs, u64::MAX);
    assert_eq!(betti, vec![1, 1]);
    let betti = betti_numbers(&pairs, key(1.2));
    assert_eq!(betti, vec![2, 0]);
}

#[test]
fn filled_triangle_has_no_loop() {
    let mut c = SimplicialComplex::new();
    c.add_simplex(vec![0, 1, 2]);
    let dist = keys(&[
        vec![0.0, 1.0, 2.0],
        vec![1.0, 0.0, 1.5],
        vec![2.0, 1.5, 0.0],
    ]);
    let pairs = compute_persistence(&c, &dist);
    // the loop is born and filled at the same value, so it is not a pair
    assert_eq!(betti_numbers(&pairs, u64::MAX), vec![1]);
    for p in &pairs {
        if let Some(d) = p.death {
            assert!(d > p.birth);
        }
    }
}

#[test]
fn filtration_is_the_largest_key_in_listed_order() {
    let dist = vec![vec![0, 5, 3], vec![9, 0, 4], vec![1, 2, 0]];
    assert_eq!(filtration_value(&[0, 1, 2], &dist), 5);
    assert_eq!(filtration_value(&[1, 0], &dist), 9);
    assert_eq!(filtration_value(&[2], &dist), 0);
}

#[test]
fn reduction_clears_repeated_lows() {
    // three edges of a triangle over vertices 0, 1, 2
    let cols = vec![vec![], vec![], vec![], vec![0, 1], vec![1, 2], vec![0, 2]];
    let (reduced, low) = reduce_boundary(cols);
    assert_eq!(low, vec![None, None, None, Some(1), Some(2), None]);
    assert!(reduced[5].is_empty());
}

#[test]
fn betti_numbers_of_no_pairs() {
    assert_eq!(betti_numbers(&[], 0), vec![0]);
    let pairs = vec![PersistencePair { dim: 2, birth: 3, death: Some(7) }];
    assert_eq!(betti_numbers(&pairs, 3), vec![0, 0, 1]);
    assert_eq!(betti_numbers(&pairs, 7), vec![0, 0, 0]);
    assert_eq!(betti_numbers(&pairs, 2), vec![0, 0, 0]);
}

#[test]
fn pivots_of_a_filled_triangle() {
    // vertices 0, 1, 2; edges 3 = {0,1}, 4 = {1,2}, 5 = {0,2}; triangle 6 = {3,4,5}
    let cols = vec![vec![], vec![], vec![], vec![0, 1], vec![1, 2], vec![0, 2], vec![3, 4, 5]];
    let (reduced, low) = reduce_boundary(cols);
    // any reduction pairs edge 3 with vertex 1, edge 4 with vertex 2 and the triangle with edge 5
    assert_eq!(low, vec![None, None, None, Some(1), Some(2), None, Some(5)]);
    assert_eq!(reduced[6], vec![3, 4, 5]);
}

#[test]
fn same_complex_same_diagram() {
    let mut c = SimplicialComplex::new();
    c.add_simplex(vec![0, 1, 2]);
    c.add_simplex(vec![2, 3]);
    let dist = keys(&[
        vec![0.0, 1.0, 2.0, 4.0],
        vec![1.0, 0.0, 1.5, 3.0],
        vec![2.0, 1.5, 0.0, 2.5],
        vec![4.0, 3.0, 2.5, 0.0],
    ]);
    let first = compute_persistence(&c, &dist);
    let second = compute_persistence(&c.clone(), &dist);
    assert_eq!(first, second);
    assert_eq!(
        first,
        vec![
            PersistencePair { dim: 0, birth: 0, death: Some(key(1.0)) },
            PersistencePair { dim: 0, birth: 0, death: Some(key(1.5)) },
            PersistencePair { dim: 0, birth: 0, death: Some(key(2.5)) },
            PersistencePair { dim: 0, birth: 0, death: None },
        ]
    );
}

#[test]
fn a_component_lives_forever() {
    let mut c = SimplicialComplex::new();
    c.add_simplex(vec![0, 1, 2]);
    c.add_simplex(vec![3, 4]);
    c.add_simplex(vec![2, 3]);
    let dist = keys(&[
        vec![0.0, 1.0, 1.0, 3.0, 4.0],
        vec![1.0, 0.0, 1.0, 2.5, 3.5],
        vec![1.0, 1.0, 0.0, 2.0, 3.0],
        vec![3.0, 2.5, 2.0, 0.0, 1.0],
        vec![4.0, 3.5, 3.0, 1.0, 0.0],
    ]);
    let pairs = compute_persistence(&c, &dist);
    let forever: Vec<&PersistencePair> = pairs.iter().filter(|p| p.dim == 0 && p.death.is_none()).collect();
    assert_eq!(forever.len(), 1);
    assert_eq!(betti_numbers(&pairs, u64::MAX)[0], 1);
}

#[test]
fn a_repeated_vertex_can_pair_the_only_component_away() {
    // both faces of the edge [0, 0] are the vertex [0], listed once in its boundary column,
    // so the edge kills the only vertex at the value it was born
    let mut c = SimplicialComplex::new();
    c.add_simplex(vec![0, 0]);
    let dist = vec![vec![0u64]];
    let pairs = compute_persistence(&c, &dist);
    assert!(pairs.iter().all(|p| !(p.dim == 0 && p.death.is_none())));
}
