use tsp::weighted_graph::{distance, isqrt, WeightedGraph};

#[test]
fn weight_between_vertices_is_computed_correctly() {
    let graph = WeightedGraph::from_weights(
        3,
        vec![1, 2, 3, 2, 1, 4, 3, 4, 1],
    )
    .unwrap();
    assert_eq!(4, graph.weight_between(2, 1));
    assert_eq!(4, graph.weight_between(1, 2));

    assert_eq!(2, graph.weight_between(0, 1));
    assert_eq!(2, graph.weight_between(1, 0));
}

#[test]
fn distance_is_computed_correctly() {
    let p1 = (0, 0);
    let p2 = (3, 4);

    assert_eq!(5, distance(p1, p2));
}

#[test]
fn distance_is_symmetric_and_rounds_down() {
    let p = (-3, 7);
    let q = (10, -2);
    assert_eq!(distance(p, q), distance(q, p));
    assert_eq!(0, distance(p, p));
    // sqrt(2) rounds down to 1.
    assert_eq!(1, distance((0, 0), (1, 1)));
}

#[test]
fn isqrt_matches_known_squares() {
    assert_eq!(0, isqrt(0));
    assert_eq!(1, isqrt(1));
    assert_eq!(1, isqrt(2));
    assert_eq!(1, isqrt(3));
    assert_eq!(2, isqrt(4));
    assert_eq!(9, isqrt(99));
    assert_eq!(10, isqrt(100));
    assert_eq!(4294967295, isqrt(u64::MAX));
}

#[test]
fn graph_from_points_has_euclidean_weights() {
    let points = vec![(0, 0), (3, 4), (6, 8)];
    let graph = WeightedGraph::from_points(points);
    assert_eq!(3, graph.num_vertices());
    assert_eq!(5, graph.weight_between(0, 1));
    assert_eq!(5, graph.weight_between(1, 2));
    assert_eq!(10, graph.weight_between(0, 2));
    assert_eq!(10, graph.weight_between(2, 0));
    assert_eq!(0, graph.weight_between(1, 1));
}

#[test]
fn from_weights_rejects_bad_shapes() {
    assert!(WeightedGraph::from_weights(2, vec![0, 1, 1]).is_none());
    assert!(WeightedGraph::from_weights(1, vec![0x1_0000_0000]).is_none());
    assert!(WeightedGraph::from_weights(2, vec![0, 1, 1, 0]).is_some());
}
