use witness_topology::witness::{build_witness_complex, SimplicialComplex};

/// The distance key of a non-negative distance: it orders as the distance does.
fn key(d: f64) -> u64 {
    if d.is_nan() || d <= 0.0 {
        0
    } else if d.is_infinite() {
        u64::MAX
    } else {
        d.to_bits()
    }
}

fn distance_keys(points: &[Vec<f64>]) -> Vec<Vec<u64>> {
    points
        .iter()
        .map(|p| {
            points
                .iter()
                .map(|q| key(p.iter().zip(q.iter()).map(|(x, y)| (x - y).powi(2)).sum::<f64>().sqrt()))
                .collect()
        })
        .collect()
}

fn sample_cloud() -> Vec<Vec<f64>> {
    vec![
        vec![0.0, 0.0],
        vec![1.0, 0.0],
        vec![0.0, 1.0],
        vec![1.0, 1.0],
        vec![0.5, 0.5],
    ]
}

#[test]
fn test_empty_complex() {
    let c = SimplicialComplex::new();
    assert_eq!(c.num_simplices(0), 0);
    assert_eq!(c.euler_characteristic(), 0);
}

#[test]
fn test_add_vertex() {
    let mut c = SimplicialComplex::new();
    c.add_simplex(vec![0]);
    assert_eq!(c.num_simplices(0), 1);
    assert!(c.contains(&[0]));
}

#[test]
fn test_add_edge_adds_vertices() {
    let mut c = SimplicialComplex::new();
    c.add_simplex(vec![0, 1]);
    assert_eq!(c.num_simplices(0), 2);
    assert_eq!(c.num_simplices(1), 1);
}

#[test]
fn test_add_triangle_adds_faces() {
    let mut c = SimplicialComplex::new();
    c.add_simplex(vec![0, 1, 2]);
    assert_eq!(c.num_simplices(0), 3);
    assert_eq!(c.num_simplices(1), 3);
    assert_eq!(c.num_simplices(2), 1);
    assert_eq!(c.euler_characteristic(), 3 - 3 + 1);
}

#[test]
fn test_witness_complex_basic() {
    let cloud = sample_cloud();
    let landmarks = vec![0, 1, 2, 3];
    let complex = build_witness_complex(&distance_keys(&cloud), &landmarks, 2);
    assert_eq!(complex.num_simplices(0), 4);
    assert!(complex.num_simplices(1) > 0);
}

#[test]
fn test_witness_complex_k1_no_edges() {
    let cloud = sample_cloud();
    let landmarks = vec![0, 1, 2];
    let complex = build_witness_complex(&distance_keys(&cloud), &landmarks, 1);
    assert_eq!(complex.num_simplices(0), 3);
    assert_eq!(complex.num_simplices(1), 0);
}

#[test]
fn test_witness_complex_collinear() {
    let cloud = vec![vec![0.0], vec![1.0], vec![2.0], vec![3.0]];
    let landmarks = vec![0, 1, 2, 3];
    let complex = build_witness_complex(&distance_keys(&cloud), &landmarks, 3);
    assert!(complex.num_simplices(0) > 0);
}

#[test]
fn test_contains() {
    let mut c = SimplicialComplex::new();
    c.add_simplex(vec![2, 1]);
    assert!(c.contains(&[1, 2]));
    assert!(c.contains(&[2, 1]));
    assert!(!c.contains(&[1, 3]));
}

#[test]
fn test_euler_single_triangle() {
    let mut c = SimplicialComplex::new();
    c.add_simplex(vec![0, 1, 2]);
    assert_eq!(c.euler_characteristic(), 1);
}

#[test]
fn adding_a_simplex_twice_changes_nothing() {
    let mut c = SimplicialComplex::new();
    c.add_simplex(vec![0, 1, 2]);
    let once = c.simplices.clone();
    c.add_simplex(vec![0, 1, 2]);
    assert_eq!(c.simplices, once);
    c.add_simplex(vec![1, 2]);
    assert_eq!(c.simplices, once);
}

#[test]
fn adding_in_either_order_gives_the_same_sets() {
    let mut a = SimplicialComplex::new();
    a.add_simplex(vec![0, 1]);
    a.add_simplex(vec![1, 2, 3]);
    let mut b = SimplicialComplex::new();
    b.add_simplex(vec![1, 2, 3]);
    b.add_simplex(vec![0, 1]);
    for d in 0..3 {
        let mut x = a.simplices[d].clone();
        let mut y = b.simplices[d].clone();
        x.sort();
        y.sort();
        assert_eq!(x, y);
    }
}

#[test]
fn added_simplex_and_its_faces_are_held_in_any_order() {
    let mut c = SimplicialComplex::new();
    c.add_simplex(vec![3, 1, 2]);
    assert!(c.contains(&[1, 2, 3]));
    assert!(c.contains(&[2, 3]));
    assert!(c.contains(&[3, 2]));
    assert!(c.contains(&[1]));
    assert!(!c.contains(&[1, 4]));
    assert!(!c.contains(&[0, 1, 2, 3]));
}

#[test]
fn faces_keep_vertex_order_and_come_first() {
    let mut c = SimplicialComplex::new();
    c.add_simplex(vec![5, 7, 9]);
    assert_eq!(c.vertices(), &[vec![9], vec![7], vec![5]][..]);
    assert_eq!(c.edges(), &[vec![7, 9], vec![5, 9], vec![5, 7]][..]);
    assert_eq!(c.triangles(), &[vec![5, 7, 9]][..]);
}

#[test]
fn empty_complex_has_no_edges_or_triangles() {
    let c = SimplicialComplex::default();
    assert!(c.vertices().is_empty());
    assert!(c.edges().is_empty());
    assert!(c.triangles().is_empty());
    assert_eq!(c.num_simplices(7), 0);
    assert!(!c.contains(&[0, 1]));
}

#[test]
fn euler_of_square_boundary_is_zero() {
    let mut c = SimplicialComplex::new();
    c.add_simplex(vec![0, 1]);
    c.add_simplex(vec![1, 2]);
    c.add_simplex(vec![2, 3]);
    c.add_simplex(vec![3, 0]);
    assert_eq!(c.euler_characteristic(), 0);
}

#[test]
fn witness_edges_grow_with_k() {
    let cloud = sample_cloud();
    let dist = distance_keys(&cloud);
    let landmarks = vec![0, 1, 2, 3];
    let mut previous = 0;
    for k in 1..5 {
        let complex = build_witness_complex(&dist, &landmarks, k);
        assert_eq!(complex.num_simplices(0), 4);
        assert!(complex.num_simplices(1) >= previous);
        previous = complex.num_simplices(1);
    }
    assert_eq!(previous, 6);
}

#[test]
fn witness_complex_exact_on_a_line() {
    // points 0, 1, 2, 3 on a line; every landmark's two nearest are itself and a neighbour
    let cloud = vec![vec![0.0], vec![1.0], vec![2.0], vec![3.0]];
    let dist = distance_keys(&cloud);
    let complex = build_witness_complex(&dist, &[0, 1, 2, 3], 2);
    let mut edges = complex.edges().to_vec();
    edges.sort();
    // point 1 is as near to 0 as to 2; the tie goes to the landmark listed first
    assert_eq!(edges, vec![vec![0, 1], vec![1, 2], vec![2, 3]]);
    assert_eq!(complex.num_simplices(2), 0);
    let complex = build_witness_complex(&dist, &[0, 1, 2, 3], 3);
    let mut triangles = complex.triangles().to_vec();
    triangles.sort();
    assert_eq!(triangles, vec![vec![0, 1, 2], vec![1, 2, 3]]);
}

#[test]
fn witness_vertices_follow_the_landmark_order() {
    let cloud = vec![vec![0.0], vec![1.0], vec![2.0], vec![3.0]];
    let dist = distance_keys(&cloud);
    let complex = build_witness_complex(&dist, &[3, 1, 3, 0], 2);
    assert_eq!(complex.vertices(), &[vec![3], vec![1], vec![0]][..]);
}

#[test]
fn triangle_enters_when_its_three_edges_are_witnessed() {
    // points 3, 4, 5 lie between pairs of landmarks and witness the three edges at k = 2
    let cloud = vec![
        vec![0.0, 0.0],
        vec![4.0, 0.0],
        vec![2.0, 3.0],
        vec![2.0, 0.0],
        vec![1.0, 1.5],
        vec![3.0, 1.5],
    ];
    let complex = build_witness_complex(&distance_keys(&cloud), &[0, 1, 2], 2);
    assert_eq!(complex.num_simplices(0), 3);
    assert_eq!(complex.num_simplices(1), 3);
    assert_eq!(complex.num_simplices(2), 1);
    assert!(complex.contains(&[0, 1, 2]));
}

#[test]
fn a_simplex_is_its_set_of_vertices() {
    let mut c = SimplicialComplex::new();
    c.add_simplex(vec![0, 1]);
    c.add_simplex(vec![1, 0]);
    assert_eq!(c.simplices[0].len(), 2);
    assert_eq!(c.simplices[1].len(), 1);
    assert_eq!(c.num_simplices(1), 1);
    assert_eq!(c.euler_characteristic(), 1);
    c.add_simplex(vec![2, 0, 1]);
    assert_eq!(c.num_simplices(0), 3);
    assert_eq!(c.num_simplices(1), 3);
    assert_eq!(c.num_simplices(2), 1);
    c.add_simplex(vec![1, 2, 0]);
    assert_eq!(c.num_simplices(2), 1);
    assert_eq!(c.euler_characteristic(), 1);
}

#[test]
fn faces_held_in_another_order_are_not_stored_again() {
    let mut c = SimplicialComplex::new();
    c.add_simplex(vec![1, 0]);
    c.add_simplex(vec![0, 1, 2]);
    assert_eq!(c.edges(), &[vec![1, 0], vec![1, 2], vec![0, 2]][..]);
    assert_eq!(c.num_simplices(0), 3);
    assert_eq!(c.triangles(), &[vec![0, 1, 2]][..]);
}

#[test]
fn witness_edges_are_stored_in_the_order_points_witness_them() {
    // the first point, not a landmark, witnesses the edge between landmarks 2 and 3 first
    let cloud = vec![vec![10.2], vec![0.0], vec![10.0], vec![10.5], vec![0.5]];
    let complex = build_witness_complex(&distance_keys(&cloud), &[1, 2, 3, 4], 2);
    assert_eq!(complex.vertices(), &[vec![1], vec![2], vec![3], vec![4]][..]);
    assert_eq!(complex.edges(), &[vec![2, 3], vec![1, 4]][..]);
    assert_eq!(complex.num_simplices(2), 0);
}

#[test]
fn a_single_simplex_has_binomially_many_faces() {
    let mut c = SimplicialComplex::new();
    c.add_simplex(vec![3, 0, 2, 1]);
    assert_eq!(
        (c.num_simplices(0), c.num_simplices(1), c.num_simplices(2), c.num_simplices(3), c.num_simplices(4)),
        (4, 6, 4, 1, 0)
    );
    assert_eq!(c.euler_characteristic(), 1);
    let mut v = SimplicialComplex::new();
    v.add_simplex(vec![7]);
    assert_eq!((v.num_simplices(0), v.num_simplices(1)), (1, 0));
}
