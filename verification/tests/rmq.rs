use flashcluster::rmq::Rmq;

#[test]
fn rmq_matches_brute_force() {
    let weights = vec![5u64, 1, 4, 1, 5, 9, 2, 6, 5, 3];
    let n = weights.len();
    let rmq = Rmq::new(weights.clone()).unwrap();
    for lo in 0..n {
        for hi in (lo + 1)..=n {
            let expect = weights[lo..hi].iter().copied().max().unwrap();
            assert_eq!(rmq.get_max(lo, hi), Some(expect));
        }
    }
}

#[test]
fn rmq_single_element() {
    let weights = vec![3u64, 8, 2];
    let rmq = Rmq::new(weights).unwrap();
    assert_eq!(rmq.get_max(0, 1), Some(3));
    assert_eq!(rmq.get_max(1, 2), Some(8));
    assert_eq!(rmq.get_max(2, 3), Some(2));
}

#[test]
fn rmq_full_range() {
    let weights = vec![3u64, 8, 2, 8, 1];
    let rmq = Rmq::new(weights).unwrap();
    assert_eq!(rmq.get_max(0, 5), Some(8));
}

#[test]
fn rmq_empty_range_fails() {
    let rmq = Rmq::new(vec![1u64, 2, 3]).unwrap();
    assert_eq!(rmq.get_max(1, 1), None);
    assert_eq!(rmq.get_max(2, 1), None);
    assert_eq!(rmq.get_max(0, 4), None);
}

#[test]
fn rmq_empty_array_fails() {
    assert!(Rmq::new(Vec::new()).is_none());
}
