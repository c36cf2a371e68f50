use witness_topology::landmark::{distances_to_landmarks, maxmin_landmarks, random_landmarks};

/// The distance key of a non-negative distance: it orders as the distance does.
fn key(d: f64) -> u64 {
    if d.is_nan() || d <= 0.0 {
        0
    } else if d.is_infinite() {
        u64::MAX
    } else {
        d.to_bits()
    }
}

fn euclidean(a: &[f64], b: &[f64]) -> f64 {
    a.iter().zip(b.iter()).map(|(x, y)| (x - y).powi(2)).sum::<f64>().sqrt()
}

fn distance_keys(points: &[Vec<f64>]) -> Vec<Vec<u64>> {
    points.iter().map(|p| points.iter().map(|q| key(euclidean(p, q))).collect()).collect()
}

fn sample_cloud() -> Vec<Vec<f64>> {
    vec![
        vec![0.0, 0.0],
        vec![1.0, 0.0],
        vec![0.0, 1.0],
        vec![1.0, 1.0],
        vec![0.5, 0.5],
        vec![2.0, 0.0],
    ]
}

#[test]
fn test_random_landmarks_count() {
    let cloud = sample_cloud();
    let landmarks = random_landmarks(cloud.len(), 3, 42);
    assert_eq!(landmarks.len(), 3);
    assert_eq!(landmarks.iter().collect::<std::collections::HashSet<_>>().len(), 3);
}

#[test]
fn test_random_landmarks_all() {
    let cloud = sample_cloud();
    let landmarks = random_landmarks(cloud.len(), 10, 42);
    assert_eq!(landmarks.len(), 6); // only 6 points
}

#[test]
fn test_maxmin_landmarks_count() {
    let cloud = sample_cloud();
    let landmarks = maxmin_landmarks(&distance_keys(&cloud), 3);
    assert_eq!(landmarks.len(), 3);
}

#[test]
fn test_maxmin_landmarks_coverage() {
    let cloud = sample_cloud();
    let landmarks = maxmin_landmarks(&distance_keys(&cloud), 3);
    // Maxmin should pick points that are far apart
    // First landmark is always index 0
    assert_eq!(landmarks[0], 0);
}

#[test]
fn test_maxmin_landmarks_empty() {
    let landmarks = maxmin_landmarks(&[], 3);
    assert!(landmarks.is_empty());
}

#[test]
fn test_distances_to_landmarks() {
    let cloud = sample_cloud();
    let landmarks = vec![0, 3]; // (0,0) and (1,1)
    let dists = distances_to_landmarks(&distance_keys(&cloud), &landmarks);
    // Point (0.5, 0.5) is equidistant: sqrt(0.5)
    let expected = (0.5_f64.powi(2) + 0.5_f64.powi(2)).sqrt();
    assert!((f64::from_bits(dists[4]) - expected).abs() < 1e-10);
}

#[test]
fn random_landmarks_follow_the_generator() {
    // first draw: 42 * 6364136223846793005 + 1442695040888963407 (mod 2^64)
    let r1 = 42u64.wrapping_mul(6364136223846793005).wrapping_add(1442695040888963407);
    let r2 = r1.wrapping_mul(6364136223846793005).wrapping_add(1442695040888963407);
    let mut idx: Vec<usize> = (0..6).collect();
    let j = (r1 as usize) % 6;
    idx.swap(0, j);
    let j = 1 + (r2 as usize) % 5;
    idx.swap(1, j);
    assert_eq!(random_landmarks(6, 2, 42), idx[..2].to_vec());
}

#[test]
fn random_landmarks_are_distinct_and_in_range() {
    for seed in 0..20u64 {
        for k in 0..12 {
            let lm = random_landmarks(9, k, seed);
            assert_eq!(lm.len(), k.min(9));
            let set: std::collections::HashSet<_> = lm.iter().collect();
            assert_eq!(set.len(), lm.len());
            assert!(lm.iter().all(|&x| x < 9));
        }
    }
    assert_eq!(random_landmarks(4, 4, 7), vec![0, 1, 2, 3]);
    assert!(random_landmarks(0, 3, 7).is_empty());
}

#[test]
fn maxmin_picks_the_farthest_point() {
    let cloud = sample_cloud();
    let dist = distance_keys(&cloud);
    // from (0,0) the farthest point is (2,0); then (1,1), at distance sqrt(2) from both
    assert_eq!(maxmin_landmarks(&dist, 3), vec![0, 5, 3]);
    assert_eq!(maxmin_landmarks(&dist, 0), Vec::<usize>::new());
    assert_eq!(maxmin_landmarks(&dist, 6), vec![0, 1, 2, 3, 4, 5]);
}

#[test]
fn maxmin_ties_go_to_the_last_point() {
    // points at 0, 1, 2, 3 on a line: from point 0 the farthest is 3; then points 1 and 2
    // are both at distance 1 from the chosen ones, and the later one wins
    let cloud = vec![vec![0.0], vec![1.0], vec![2.0], vec![3.0]];
    assert_eq!(maxmin_landmarks(&distance_keys(&cloud), 3), vec![0, 3, 2]);
}

#[test]
fn distances_to_no_landmarks_are_unbounded() {
    let cloud = sample_cloud();
    let dists = distances_to_landmarks(&distance_keys(&cloud), &[]);
    assert!(dists.iter().all(|&d| d == u64::MAX));
    let dists = distances_to_landmarks(&distance_keys(&cloud), &[0]);
    assert_eq!(dists[0], 0);
    assert_eq!(f64::from_bits(dists[5]), 2.0);
}
