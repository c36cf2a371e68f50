use witness_topology::weak_witness::{assemble_weak_witness_complex, build_weak_witness_complex, has_weak_witness};

/// The distance key of a non-negative distance: it orders as the distance does.
fn key(d: f64) -> u64 {
    if d.is_nan() || d <= 0.0 {
        0
    } else if d.is_infinite() {
        u64::MAX
    } else {
        d.to_bits()
    }
}

fn euclidean(a: &[f64], b: &[f64]) -> f64 {
    a.iter().zip(b.iter()).map(|(x, y)| (x - y).powi(2)).sum::<f64>().sqrt()
}

fn distance_keys(points: &[Vec<f64>]) -> Vec<Vec<u64>> {
    points.iter().map(|p| points.iter().map(|q| key(euclidean(p, q))).collect()).collect()
}

/// Whether some point is within `margin` of being a weak witness of `simplex`.
fn relaxed_witness(points: &[Vec<f64>], landmarks: &[usize], simplex: &[usize], margin: f64) -> bool {
    points.iter().any(|p| {
        let max_vertex = simplex
            .iter()
            .map(|&v| euclidean(p, &points[v]))
            .fold(f64::NEG_INFINITY, f64::max);
        let min_other = landmarks
            .iter()
            .filter(|l| !simplex.contains(l))
            .map(|&l| euclidean(p, &points[l]))
            .fold(f64::INFINITY, f64::min);
        max_vertex < min_other + margin
    })
}

fn relaxed_tables(points: &[Vec<f64>], landmarks: &[usize], margin: f64) -> (Vec<Vec<bool>>, Vec<Vec<Vec<bool>>>) {
    let n = landmarks.len();
    let edges = (0..n)
        .map(|i| (0..n).map(|j| i < j && relaxed_witness(points, landmarks, &[landmarks[i], landmarks[j]], margin)).collect())
        .collect();
    let triangles = (0..n)
        .map(|i| {
            (0..n)
                .map(|j| {
                    (0..n)
                        .map(|k| {
                            i < j && j < k
                                && relaxed_witness(points, landmarks, &[landmarks[i], landmarks[j], landmarks[k]], margin)
                        })
                        .collect()
                })
                .collect()
        })
        .collect();
    (edges, triangles)
}

fn sample_cloud() -> Vec<Vec<f64>> {
    vec![
        vec![0.0, 0.0],
        vec![1.0, 0.0],
        vec![0.0, 1.0],
        vec![1.0, 1.0],
        vec![0.5, 0.5],
    ]
}

#[test]
fn test_weak_witness_basic() {
    let cloud = sample_cloud();
    let landmarks = vec![0, 1, 2, 3];
    let complex = build_weak_witness_complex(&distance_keys(&cloud), &landmarks, 2);
    assert_eq!(complex.num_simplices(0), 4);
}

#[test]
fn test_weak_witness_three_points() {
    let cloud = vec![vec![0.0], vec![1.0], vec![2.0], vec![0.5], vec![1.5]];
    let landmarks = vec![0, 1, 2];
    let complex = build_weak_witness_complex(&distance_keys(&cloud), &landmarks, 2);
    assert_eq!(complex.num_simplices(0), 3);
}

#[test]
fn test_relaxed_weak_witness() {
    let cloud = sample_cloud();
    let landmarks = vec![0, 1, 2, 3];
    let strict = build_weak_witness_complex(&distance_keys(&cloud), &landmarks, 2);
    let (edges, triangles) = relaxed_tables(&cloud, &landmarks, 1.0);
    let relaxed = assemble_weak_witness_complex(&landmarks, 2, &edges, &triangles);
    // Relaxed should have at least as many simplices
    assert!(relaxed.num_simplices(1) >= strict.num_simplices(1));
}

#[test]
fn test_weak_witness_two_points() {
    let cloud = vec![vec![0.0], vec![1.0], vec![0.5]];
    let landmarks = vec![0, 1];
    let complex = build_weak_witness_complex(&distance_keys(&cloud), &landmarks, 1);
    assert_eq!(complex.num_simplices(0), 2);
}

#[test]
fn test_weak_witness_single_landmark() {
    let cloud = sample_cloud();
    let landmarks = vec![0];
    let complex = build_weak_witness_complex(&distance_keys(&cloud), &landmarks, 2);
    assert_eq!(complex.num_simplices(0), 1);
    assert_eq!(complex.num_simplices(1), 0);
}

#[test]
fn weak_witness_on_a_line() {
    // landmarks at 0, 1, 2; witnesses at 0.5 and 1.5 see neighbouring pairs only
    let cloud = vec![vec![0.0], vec![1.0], vec![2.0], vec![0.5], vec![1.5]];
    let dist = distance_keys(&cloud);
    let complex = build_weak_witness_complex(&dist, &[0, 1, 2], 2);
    let mut edges = complex.edges().to_vec();
    edges.sort();
    assert_eq!(edges, vec![vec![0, 1], vec![1, 2]]);
    assert_eq!(complex.num_simplices(2), 0);
    assert!(has_weak_witness(&dist, &[0, 1, 2], &[0, 1]));
    assert!(!has_weak_witness(&dist, &[0, 1, 2], &[0, 2]));
    // with every landmark a vertex, any point at finite distance is a witness
    assert!(has_weak_witness(&dist, &[0, 1, 2], &[0, 1, 2]));
}

#[test]
fn triangle_needs_its_edges() {
    let landmarks = vec![4, 5, 6];
    let no_edges = vec![vec![false; 3]; 3];
    let all_triangles = vec![vec![vec![true; 3]; 3]; 3];
    let complex = assemble_weak_witness_complex(&landmarks, 2, &no_edges, &all_triangles);
    assert_eq!(complex.num_simplices(2), 0);
    let all_edges = vec![vec![true; 3]; 3];
    let complex = assemble_weak_witness_complex(&landmarks, 2, &all_edges, &all_triangles);
    assert_eq!(complex.triangles(), &[vec![4, 5, 6]][..]);
    let complex = assemble_weak_witness_complex(&landmarks, 1, &all_edges, &all_triangles);
    assert_eq!(complex.num_simplices(2), 0);
    assert_eq!(complex.num_simplices(1), 3);
}

#[test]
fn relaxed_admissions_only_add_simplices() {
    let cloud = sample_cloud();
    let landmarks = vec![0, 1, 2, 3];
    for margin in [0.0, 0.1, 0.5, 1.0, 2.0] {
        let (e1, t1) = relaxed_tables(&cloud, &landmarks, margin);
        let (e2, t2) = relaxed_tables(&cloud, &landmarks, margin + 0.25);
        let small = assemble_weak_witness_complex(&landmarks, 2, &e1, &t1);
        let large = assemble_weak_witness_complex(&landmarks, 2, &e2, &t2);
        for d in 0..3 {
            assert!(small.num_simplices(d) <= large.num_simplices(d));
        }
    }
}

#[test]
fn weak_complex_is_stored_in_landmark_position_order() {
    let landmarks = vec![4, 2, 7];
    let n = landmarks.len();
    let edges: Vec<Vec<bool>> = (0..n).map(|i| (0..n).map(|j| i < j).collect()).collect();
    let triangles: Vec<Vec<Vec<bool>>> =
        (0..n).map(|i| (0..n).map(|j| (0..n).map(|k| i < j && j < k).collect()).collect()).collect();
    let complex = assemble_weak_witness_complex(&landmarks, 2, &edges, &triangles);
    assert_eq!(complex.vertices(), &[vec![4], vec![2], vec![7]][..]);
    assert_eq!(complex.edges(), &[vec![4, 2], vec![4, 7], vec![2, 7]][..]);
    assert_eq!(complex.triangles(), &[vec![4, 2, 7]][..]);
    // without triangles, the triangle table is not read
    let flat = assemble_weak_witness_complex(&landmarks, 1, &edges, &Vec::new());
    assert_eq!(flat.num_simplices(2), 0);
    assert_eq!(flat.edges(), complex.edges());
}

#[test]
fn weak_witness_complex_lies_within_the_witness_complex() {
    let cloud = sample_cloud();
    let dist = distance_keys(&cloud);
    let landmarks = vec![0, 1, 2, 3, 4];
    let weak = build_weak_witness_complex(&dist, &landmarks, 2);
    for k in 3..6 {
        let witness = witness_topology::witness::build_witness_complex(&dist, &landmarks, k);
        for level in &weak.simplices {
            for s in level {
                assert!(witness.contains(s));
            }
        }
    }
}

#[test]
fn weak_witness_up_to_dimension_zero_has_no_edges() {
    let cloud = vec![vec![0.0], vec![1.0], vec![0.5]];
    let complex = build_weak_witness_complex(&distance_keys(&cloud), &[0, 1], 0);
    assert_eq!(complex.num_simplices(0), 2);
    assert_eq!(complex.num_simplices(1), 0);
    let edges = build_weak_witness_complex(&distance_keys(&cloud), &[0, 1], 1);
    assert_eq!(edges.num_simplices(1), 1);
}

#[test]
fn repeated_landmarks_give_one_edge_per_vertex_set() {
    let landmarks = vec![5, 3, 5];
    let n = landmarks.len();
    let edges: Vec<Vec<bool>> = (0..n).map(|i| (0..n).map(|j| i < j).collect()).collect();
    let complex = assemble_weak_witness_complex(&landmarks, 1, &edges, &Vec::new());
    assert_eq!(complex.vertices(), &[vec![5], vec![3]][..]);
    assert_eq!(complex.edges(), &[vec![5, 3], vec![5, 5]][..]);
}
