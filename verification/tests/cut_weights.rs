use flashcluster::cut_weights::{CwParams, MultiplyMode};
use flashcluster::spanning_tree::{Edge, SpanningTree};

#[test]
fn square_root_mode_values() {
    let p = CwParams { alpha_num: 3, alpha_den: 2, mode: MultiplyMode::SquareRoot };
    // isqrt(100) = 10, then 3 * 10 / 2 = 15
    assert_eq!(p.apply(100), 15);
    assert_eq!(p.apply(0), 0);
    // isqrt(99) = 9, then 27 / 2 = 13
    assert_eq!(p.apply(99), 13);
}

#[test]
fn theoretical_mode_values() {
    let p = CwParams { alpha_num: 3, alpha_den: 2, mode: MultiplyMode::Theoretical };
    // 9 * 100 / 4 = 225
    assert_eq!(p.apply(100), 225);
    // saturates instead of overflowing
    let big = CwParams { alpha_num: 2, alpha_den: 1, mode: MultiplyMode::Theoretical };
    assert_eq!(big.apply(u64::MAX), u64::MAX);
}

#[test]
fn transform_keeps_endpoints_and_order() {
    let p = CwParams { alpha_num: 1, alpha_den: 1, mode: MultiplyMode::SquareRoot };
    let tree = SpanningTree { edges: vec![Edge(0, 1, 4), Edge(1, 2, 9), Edge(2, 3, 16)] };
    let cw = p.compute_weights(&tree);
    assert_eq!(cw.len(), 3);
    assert_eq!((cw[0].0, cw[0].1, cw[0].2), (0, 1, 2));
    assert_eq!((cw[1].0, cw[1].1, cw[1].2), (1, 2, 3));
    assert_eq!((cw[2].0, cw[2].1, cw[2].2), (2, 3, 4));
}
