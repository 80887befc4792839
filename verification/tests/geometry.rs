use flashcluster::afn::estimate_diameter;
use flashcluster::lsh::projection_lsh;
use flashcluster::points::{dist, dist2, isqrt, PointSet};
use flashcluster::rng::Prng;

#[test]
fn dist2_exact_values() {
    // two 3-d points: (1,2,3) and (4,6,3)
    let ps = PointSet::new(vec![1, 2, 3, 4, 6, 3], 2, 3).unwrap();
    assert_eq!(dist2(&ps, 0, 1), 9 + 16);
    assert_eq!(dist2(&ps, 1, 0), 25);
    assert_eq!(dist2(&ps, 0, 0), 0);
    assert_eq!(dist(&ps, 0, 1), 5);
}

#[test]
fn isqrt_values() {
    assert_eq!(isqrt(0), 0);
    assert_eq!(isqrt(1), 1);
    assert_eq!(isqrt(24), 4);
    assert_eq!(isqrt(25), 5);
    assert_eq!(isqrt(26), 5);
    assert_eq!(isqrt(u64::MAX), 4294967295);
}

#[test]
fn point_set_rejects_bad_shapes() {
    assert!(PointSet::new(vec![1, 2, 3], 2, 2).is_none());
    assert!(PointSet::new(vec![1 << 30], 1, 1).is_none());
    assert!(PointSet::new(vec![0, 0], 1, 2).is_some());
}

#[test]
fn diameter_estimate_bounds() {
    // points on a line at 0, 3, 4: true squared diameter is 16
    let ps = PointSet::new(vec![0, 3, 4], 3, 1).unwrap();
    let est = estimate_diameter(&ps);
    // farthest from point 0 is 4, farthest from there is 0, squared 16
    assert_eq!(est, 64);
    // squared form of: true diameter <= estimate <= twice the diameter
    assert!(16 <= est && est <= 4 * 16);
}

#[test]
fn lsh_groups_identical_points_together() {
    // two identical points always share every hash coordinate
    let ps = PointSet::new(vec![7, 7, 7, 7], 2, 2).unwrap();
    let mut rng = Prng::new(12345);
    let buckets = projection_lsh(&ps, 4, 1000, &mut rng);
    let together = buckets.iter().any(|b| b.contains(&0) && b.contains(&1));
    assert!(together);
}

#[test]
fn lsh_separates_far_points_at_small_width() {
    // with a tiny bucket width, far points land in different buckets
    let ps = PointSet::new(vec![0, 1000000], 2, 1).unwrap();
    let mut rng = Prng::new(99);
    let buckets = projection_lsh(&ps, 4, 1, &mut rng);
    assert_eq!(buckets.len(), 2);
    for b in &buckets {
        assert_eq!(b.len(), 1);
        assert!(b[0] < 2);
    }
}
