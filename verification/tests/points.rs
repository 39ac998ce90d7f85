use salesman::points::isqrt;
use salesman::points::MatrixNode;
use salesman::points::PlanePoint;
use salesman::points::ScalarNode;
use salesman::edge::Edge;

#[test]
fn isqrt_exact_values() {
    assert_eq!(isqrt(0), 0);
    assert_eq!(isqrt(1), 1);
    assert_eq!(isqrt(2), 1);
    assert_eq!(isqrt(3), 1);
    assert_eq!(isqrt(4), 2);
    assert_eq!(isqrt(50), 7);
    assert_eq!(isqrt(64), 8);
    assert_eq!(isqrt(65), 8);
    assert_eq!(isqrt(8_796_093_022_208), 2_965_820);
}

#[test]
fn plane_point_weight_is_floored_distance() {
    let a = PlanePoint::new(0, 0, 0);
    let b = PlanePoint::new(3, 4, 1);
    assert_eq!(a.weight(&b), 5);
    assert_eq!(b.weight(&a), 5);

    let c = PlanePoint::new(1, 1, 2);
    // sqrt(2) rounds down to 1
    assert_eq!(a.weight(&c), 1);

    let d = PlanePoint::new(-3, -4, 3);
    assert_eq!(a.weight(&d), 5);
    assert_eq!(b.weight(&d), 10);
}

#[test]
fn scalar_node_weight_is_the_sum() {
    let a = ScalarNode::new(5);
    let b = ScalarNode::new(4);
    assert_eq!(a.weight(&b), 9);
    assert_eq!(b.weight(&a), 9);
    assert_eq!(a.weight(&a), 10);
}

#[test]
fn matrix_node_carries_injected_weights() {
    // symmetric 4-node table
    let table: [[u64; 4]; 4] = [
        [0, 10, 20, 30],
        [10, 0, 5, 12],
        [20, 5, 0, 8],
        [30, 12, 8, 0],
    ];
    let nodes: Vec<MatrixNode<4>> = (0..4).map(|id| MatrixNode::new(id, table[id])).collect();
    assert_eq!(nodes[0].weight(&nodes[3]), 30);
    assert_eq!(nodes[3].weight(&nodes[0]), 30);

    let mut tsp = salesman::tsp::TSP::new(nodes);
    let path = tsp.nn();
    let order: Vec<usize> = path.iter().map(|n| n.id).collect();
    // greedy from node 0: nearest is 1 (10), then 2 (5), then 3 (8), close 30
    assert_eq!(order, vec![0, 1, 2, 3, 0]);
    assert_eq!(tsp.calculate_path_cost(), 53);
}
