use salesman::mst::MST;
use salesman::points::ScalarNode;

fn simple_nodes() -> Vec<ScalarNode> {
    vec![
        ScalarNode::new(5),
        ScalarNode::new(4),
        ScalarNode::new(1),
        ScalarNode::new(3),
        ScalarNode::new(2),
        ScalarNode::new(6),
    ]
}

#[test]
fn prims() {
    let mut mst = MST::new(simple_nodes());
    mst.solve();
    let cost = mst.calculate_cost();
    assert_eq!(cost, 25);
}

#[test]
fn prims_empty_node_set() {
    let mut mst = MST::new(Vec::<ScalarNode>::new());
    mst.solve();
    assert_eq!(mst.calculate_cost(), 0);
}

#[test]
fn prims_single_node() {
    let mut mst = MST::new(vec![ScalarNode::new(9)]);
    mst.solve();
    assert_eq!(mst.calculate_cost(), 0);
}

#[test]
fn prims_two_nodes() {
    let mut mst = MST::new(vec![ScalarNode::new(3), ScalarNode::new(4)]);
    mst.solve();
    assert_eq!(mst.calculate_cost(), 7);
}
