use witness_topology::persistence::PersistencePair;
use witness_topology::scale::{barcode_at_scale, compare_variants, multiscale_analysis, stability_range, ScaleResult};

/// The distance key of a non-negative distance: it orders as the distance does.
fn key(d: f64) -> u64 {
    if d.is_nan() || d <= 0.0 {
        0
    } else if d.is_infinite() {
        u64::MAX
    } else {
        d.to_bits()
    }
}

fn euclidean(a: &[f64], b: &[f64]) -> f64 {
    a.iter().zip(b.iter()).map(|(x, y)| (x - y).powi(2)).sum::<f64>().sqrt()
}

fn distance_keys(points: &[Vec<f64>]) -> Vec<Vec<u64>> {
    points.iter().map(|p| points.iter().map(|q| key(euclidean(p, q))).collect()).collect()
}

fn sample_cloud() -> Vec<Vec<f64>> {
    // Create a simple circular-ish point cloud
    let mut points = Vec::new();
    for i in 0..8 {
        let angle = (i as f64) * std::f64::consts::PI * 2.0 / 8.0;
        points.push(vec![angle.cos(), angle.sin()]);
    }
    // Add some interior points
    points.push(vec![0.0, 0.0]);
    points.push(vec![0.5, 0.0]);
    points
}

fn result(k: usize, betti: Vec<usize>) -> ScaleResult {
    ScaleResult { k, num_vertices: 0, num_edges: 0, num_triangles: 0, euler: 0, betti }
}

#[test]
fn test_multiscale_analysis() {
    let cloud = sample_cloud();
    let k_values = vec![2, 3, 4];
    let results = multiscale_analysis(&distance_keys(&cloud), 5, &k_values, 42);
    assert_eq!(results.len(), 3);
    for r in &results {
        assert!(r.num_vertices > 0);
    }
}

#[test]
fn test_multiscale_growing_edges() {
    let cloud = sample_cloud();
    let k_values = vec![2, 5];
    let results = multiscale_analysis(&distance_keys(&cloud), 5, &k_values, 42);
    // More neighbors → more edges (generally)
    assert!(results[1].num_edges >= results[0].num_edges);
}

#[test]
fn test_compare_variants() {
    let cloud = sample_cloud();
    let k_values = vec![3];
    let (witness, weak) = compare_variants(&distance_keys(&cloud), 4, &k_values, 42);
    assert_eq!(witness.len(), 1);
    assert_eq!(weak.len(), 1);
}

#[test]
fn test_stability_range() {
    let cloud = sample_cloud();
    let k_values = vec![2, 3, 4, 5, 6];
    let results = multiscale_analysis(&distance_keys(&cloud), 5, &k_values, 42);
    let range = stability_range(&results);
    // Should find some stable range
    assert!(range.is_some());
}

#[test]
fn test_stability_range_empty() {
    let range = stability_range(&[]);
    assert!(range.is_none());
}

#[test]
fn test_barcode_at_scale() {
    let cloud = sample_cloud();
    let pairs = barcode_at_scale(&distance_keys(&cloud), 5, 3, 42);
    // Should have at least H0 classes
    assert!(!pairs.is_empty());
}

#[test]
fn stability_range_spans_the_middle_betti_numbers() {
    let results = vec![
        result(2, vec![3]),
        result(3, vec![1, 1]),
        result(4, vec![1]),
        result(5, vec![1, 1]),
        result(6, vec![1]),
    ];
    // the middle result (k = 4) has [1], and its neighbours differ: the run is k = 4 alone
    assert_eq!(stability_range(&results), Some((4, 4)));
    let single = vec![result(9, vec![2])];
    assert_eq!(stability_range(&single), Some((9, 9)));
    // a run of equal Betti numbers around the middle, cut off where they change
    let runs = vec![
        result(1, vec![1]),
        result(2, vec![2]),
        result(3, vec![2]),
        result(4, vec![2]),
        result(5, vec![1]),
    ];
    assert_eq!(stability_range(&runs), Some((2, 4)));
    let apart = vec![result(1, vec![1]), result(2, vec![2]), result(3, vec![1]), result(4, vec![3])];
    assert_eq!(stability_range(&apart), Some((3, 3)));
}

#[test]
fn scale_results_count_the_complex() {
    // four points on a line with every point a landmark
    let cloud = vec![vec![0.0], vec![1.0], vec![2.0], vec![3.0]];
    let results = multiscale_analysis(&distance_keys(&cloud), 4, &[2, 3], 0);
    assert_eq!(results[0].k, 2);
    assert_eq!((results[0].num_vertices, results[0].num_edges, results[0].num_triangles), (4, 3, 0));
    assert_eq!(results[0].euler, 1);
    assert_eq!(results[0].betti, vec![1]);
    assert_eq!((results[1].num_vertices, results[1].num_edges, results[1].num_triangles), (4, 5, 2));
    assert_eq!(results[1].euler, 1);
    let pairs = barcode_at_scale(&distance_keys(&cloud), 4, 2, 0);
    let forever: Vec<&PersistencePair> = pairs.iter().filter(|p| p.death.is_none()).collect();
    assert_eq!(forever.len(), 1);
    let (witness, weak) = compare_variants(&distance_keys(&cloud), 4, &[2, 7], 0);
    assert_eq!(witness[0].num_edges, 3);
    assert_eq!(weak[0].k, 2);
    assert_eq!(weak[1].k, 7);
    assert_eq!(weak[0].num_edges, weak[1].num_edges);
}

#[test]
fn scale_counts_grow_with_k() {
    let cloud = sample_cloud();
    let k_values = vec![1, 2, 3, 4, 5, 6];
    let results = multiscale_analysis(&distance_keys(&cloud), 5, &k_values, 42);
    // one vertex per landmark at every scale, and no edge when a witness votes for one landmark
    assert!(results.iter().all(|r| r.num_vertices == 5));
    assert_eq!(results[0].num_edges, 0);
    for w in results.windows(2) {
        assert!(w[0].num_edges <= w[1].num_edges);
        assert!(w[0].num_triangles <= w[1].num_triangles);
    }
    // more landmarks than points: every point is a landmark
    let all = multiscale_analysis(&distance_keys(&cloud), 50, &[2], 7);
    assert_eq!(all[0].num_vertices, 10);
}

#[test]
fn every_scale_keeps_a_component() {
    let cloud = sample_cloud();
    let results = multiscale_analysis(&distance_keys(&cloud), 5, &[1, 2, 3, 4, 5, 6], 42);
    for r in &results {
        assert!(!r.betti.is_empty());
        assert!(r.betti[0] >= 1);
    }
}

#[test]
fn witness_side_equals_a_separate_multiscale_call() {
    let cloud = sample_cloud();
    let dist = distance_keys(&cloud);
    let k_values = vec![2, 3, 4];
    let (witness, weak) = compare_variants(&dist, 4, &k_values, 42);
    let alone = multiscale_analysis(&dist, 4, &k_values, 42);
    assert_eq!(witness.len(), alone.len());
    for (a, b) in witness.iter().zip(alone.iter()) {
        assert_eq!(a.k, b.k);
        assert_eq!((a.num_vertices, a.num_edges, a.num_triangles), (b.num_vertices, b.num_edges, b.num_triangles));
        assert_eq!(a.euler, b.euler);
        assert_eq!(a.betti, b.betti);
    }
    for w in weak.windows(2) {
        assert_eq!((w[0].num_vertices, w[0].num_edges, w[0].num_triangles), (w[1].num_vertices, w[1].num_edges, w[1].num_triangles));
        assert_eq!(w[0].euler, w[1].euler);
        assert_eq!(w[0].betti, w[1].betti);
    }
}

#[test]
fn barcode_is_the_diagram_of_a_separately_built_complex() {
    let cloud = sample_cloud();
    let dist = distance_keys(&cloud);
    let pairs = barcode_at_scale(&dist, 5, 3, 42);
    let landmarks = witness_topology::landmark::random_landmarks(dist.len(), 5, 42);
    let complex = witness_topology::witness::build_witness_complex(&dist, &landmarks, 3);
    assert_eq!(pairs, witness_topology::persistence::compute_persistence(&complex, &dist));
    assert!(pairs.iter().any(|p| p.dim == 0 && p.death.is_none()));
}

#[test]
fn weak_side_counts_a_separately_built_weak_complex() {
    let cloud = sample_cloud();
    let dist = distance_keys(&cloud);
    let (_, weak) = compare_variants(&dist, 4, &[3, 5], 42);
    let landmarks = witness_topology::landmark::maxmin_landmarks(&dist, 4);
    let complex = witness_topology::weak_witness::build_weak_witness_complex(&dist, &landmarks, 2);
    let pairs = witness_topology::persistence::compute_persistence(&complex, &dist);
    let betti = witness_topology::persistence::betti_numbers(&pairs, u64::MAX);
    for r in &weak {
        assert_eq!((r.num_vertices, r.num_edges, r.num_triangles),
            (complex.num_simplices(0), complex.num_simplices(1), complex.num_simplices(2)));
        assert_eq!(r.euler, complex.euler_characteristic());
        assert_eq!(r.betti, betti);
    }
}
