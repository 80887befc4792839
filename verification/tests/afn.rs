use flashcluster::afn::{AfnCluster, ApproxFarthestNeighbor};
use flashcluster::points::{dist2, PointSet};
use flashcluster::rng::Prng;

#[test]
fn random_points() {
    // a gaussian cloud of 500 points in 20 dimensions
    let n: usize = 500;
    let d: usize = 20;
    let c: f64 = 1.3;
    let it: usize = 100;
    let mut rng = Prng::new(2024);
    let mut data: Vec<i64> = Vec::with_capacity(n * d);
    for _ in 0..n * d {
        data.push(rng.gauss());
    }
    let points = PointSet::new(data, n, d).unwrap();
    // l = n^(1 / c^2) projection axes
    let l = (n as f64).powf(1.0 / (c * c)) as usize;
    let ds = ApproxFarthestNeighbor::new(&points, l, &mut rng);
    let full_cluster = AfnCluster::new_full(&ds, &points);

    let mut ok: usize = 0;
    let mut ratio: f64 = 0.0;
    for _ in 0..it {
        let id = rng.below(n as u64) as usize;
        let (_, apx_d2) = full_cluster.get_farthest(&points, &ds, id);
        let max_d2 = (0..n).map(|j| dist2(&points, id, j)).max().unwrap();
        let apx_d = (apx_d2 as f64).sqrt();
        let max_dist = (max_d2 as f64).sqrt();
        if apx_d >= max_dist / c {
            ok += 1;
        }
        ratio += max_dist / apx_d;
    }

    println!("Ratio: {ok}/{it}");
    println!("Avgr: {}", ratio / (it as f64));
    assert!(ok as f64 >= 0.7 * (it as f64))
}

#[test]
fn singleton_cluster_returns_its_point() {
    // two points; the cluster summarizing point 1 must return it
    let points = PointSet::new(vec![0, 0, 3, 4], 2, 2).unwrap();
    let mut rng = Prng::new(7);
    let afn = ApproxFarthestNeighbor::new(&points, 3, &mut rng);
    let clusters = afn.create_clusters(&points);
    assert_eq!(clusters.len(), 2);
    let (id, d2) = clusters[1].get_farthest(&points, &afn, 0);
    assert_eq!(id, 1);
    assert_eq!(d2, 25);
}

#[test]
fn merged_clusters_cover_both_points() {
    let points = PointSet::new(vec![0, 0, 3, 4], 2, 2).unwrap();
    let mut rng = Prng::new(11);
    let afn = ApproxFarthestNeighbor::new(&points, 3, &mut rng);
    let mut clusters = afn.create_clusters(&points);
    let mut b = clusters.pop().unwrap();
    let mut a = clusters.pop().unwrap();
    a.merge(&mut b);
    // the merged summary answers from the union: farthest from 0 is 1
    let (id, d2) = a.get_farthest(&points, &afn, 0);
    assert_eq!(id, 1);
    assert_eq!(d2, 25);
}
