use flashcluster::spanning_tree::{exact_mst_kruskal, Edge};

#[test]
fn test_mst() {
    // complete-enough graph on four nodes with a unique minimum tree
    let edges = vec![
        Edge(0, 1, 1),
        Edge(1, 2, 2),
        Edge(2, 3, 3),
        Edge(0, 3, 10),
        Edge(0, 2, 5),
    ];
    let tree = exact_mst_kruskal(edges, 4).unwrap();
    assert_eq!(tree.edges.len(), 3);
    let total: u64 = tree.edges.iter().map(|e| e.2).sum();
    assert_eq!(total, 6);
    // ascending weights
    for w in tree.edges.windows(2) {
        assert!(w[0].2 <= w[1].2);
    }
    // every endpoint valid and no self loops
    for e in &tree.edges {
        assert!(e.0 < 4 && e.1 < 4 && e.0 != e.1);
    }
}

#[test]
fn mst_equal_weights() {
    // a triangle of equal weights keeps exactly two edges
    let edges = vec![Edge(0, 1, 7), Edge(1, 2, 7), Edge(0, 2, 7)];
    let tree = exact_mst_kruskal(edges, 3).unwrap();
    assert_eq!(tree.edges.len(), 2);
    let total: u64 = tree.edges.iter().map(|e| e.2).sum();
    assert_eq!(total, 14);
}

#[test]
fn mst_disconnected_fails() {
    let edges = vec![Edge(0, 1, 1)];
    assert!(exact_mst_kruskal(edges, 3).is_none());
}

#[test]
fn mst_single_point() {
    let tree = exact_mst_kruskal(Vec::new(), 1).unwrap();
    assert_eq!(tree.edges.len(), 0);
}
