use flashcluster::cut_weights::{CwParams, MultiplyMode};
use flashcluster::points::PointSet;
use flashcluster::rng::Prng;
use flashcluster::spanning_tree::kt::Rung;
use flashcluster::spanning_tree::{Edge, MstParams};
use flashcluster::ultrametric::Ultrametric;

#[test]
fn single_linkage_small_chain() {
    // three points joined at weights 5 then 7
    let edges = vec![Edge(0, 1, 5), Edge(1, 2, 7)];
    let u = Ultrametric::single_linkage(edges).unwrap();
    assert_eq!(u.len(), 3);
    assert_eq!(u.dist(0, 1), 5);
    assert_eq!(u.dist(1, 2), 7);
    assert_eq!(u.dist(0, 2), 7);
    // symmetry and identity
    for i in 0..3 {
        assert_eq!(u.dist(i, i), 0);
        for j in 0..3 {
            assert_eq!(u.dist(i, j), u.dist(j, i));
        }
    }
    // strong triangle inequality on every triple
    for i in 0..3 {
        for j in 0..3 {
            for k in 0..3 {
                assert!(u.dist(i, j) <= u.dist(i, k).max(u.dist(j, k)));
            }
        }
    }
}

#[test]
fn single_linkage_rejects_cycles() {
    // a repeated pair leaves the third point disconnected
    let edges = vec![Edge(0, 1, 1), Edge(0, 1, 2)];
    assert!(Ultrametric::single_linkage(edges).is_none());
}

#[test]
fn single_linkage_rejects_empty() {
    assert!(Ultrametric::single_linkage(Vec::new()).is_none());
}

/// The radius ladder, bucket widths and pass counts the library
/// construction needs, derived the same way the bindings derive them.
fn ladder(n: usize, gamma: f64, min_dist: f64, max_dist: f64) -> MstParams {
    let mut rungs = Vec::new();
    let step = 1.0 + 5.0 / (n as f64).log2();
    let mut radius = min_dist;
    while radius <= step * max_dist {
        let width = (radius * 2.0 * gamma * 65536.0).max(1.0) as u64;
        let thr = gamma * radius;
        rungs.push(Rung { width, threshold2: (thr * thr).min(1.8e18) as u64 });
        radius *= step;
    }
    let k = ((n as f64).log2() / 0.5479318) as usize;
    let passes = ((n as f64).powf(0.6 / gamma) as usize).max(1) * 4;
    MstParams { rungs, k, passes }
}

#[test]
fn line_scenario_clusters_before_outlier() {
    // four points on a line at 0, 1, 2, 10 (scaled), near-exact factor
    let scale: i64 = 1000;
    let data = vec![0, scale, 2 * scale, 10 * scale];
    let points = PointSet::new(data, 4, 1).unwrap();
    let max_dist = 10.0 * scale as f64;
    let params = ladder(4, 1.0, 0.01 * scale as f64, max_dist);
    let cw = CwParams { alpha_num: 1, alpha_den: 1, mode: MultiplyMode::SquareRoot };
    let mut rng = Prng::new(42);
    let (u, _drawn) = Ultrametric::new(&points, &params, &cw, &mut rng);
    let u = u.unwrap();
    let d01 = u.dist(0, 1);
    let d12 = u.dist(1, 2);
    let d03 = u.dist(0, 3);
    let d13 = u.dist(1, 3);
    let d23 = u.dist(2, 3);
    assert!(d01 <= d12);
    assert!(d12 < d03);
    assert_eq!(d03, d13);
    assert_eq!(d13, d23);
    // the two near neighbors join at the unit spacing
    assert_eq!(d01, 1000);
    assert_eq!(d03, 8000);
    // ultrametric axiom over all triples of the built structure
    for i in 0..4 {
        assert_eq!(u.dist(i, i), 0);
        for j in 0..4 {
            assert_eq!(u.dist(i, j), u.dist(j, i));
            for k in 0..4 {
                assert!(u.dist(i, j) <= u.dist(i, k).max(u.dist(j, k)));
            }
        }
    }
}
