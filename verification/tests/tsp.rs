use salesman::points::PlanePoint;
use salesman::tsp::TSP;

fn point(x: i64, y: i64, index: i64) -> PlanePoint {
    PlanePoint::new(x, y, index)
}

/// Nine points in the plane used by the refinement tests below.
fn reference_points() -> Vec<PlanePoint> {
    vec![
        point(34, 27, 0),
        point(49, 20, 1),
        point(29, 37, 2),
        point(59, 29, 3),
        point(23, 19, 4),
        point(15, 50, 5),
        point(11, 44, 6),
        point(49, 15, 7),
        point(5, 36, 8),
    ]
}

fn by_label(points: &[PlanePoint], labels: &[i64]) -> Vec<PlanePoint> {
    labels
        .iter()
        .map(|l| *points.iter().find(|p| p.index == *l).unwrap())
        .collect()
}

fn labels_of(path: &[PlanePoint]) -> Vec<i64> {
    path.iter().map(|p| p.index).collect()
}

#[test]
fn path_cost() {
    let nodes = vec![
        point(0, 0, 0),
        point(1, 1, 1),
        point(2, 2, 2),
        point(3, 3, 3),
        point(4, 4, 4),
        point(5, 5, 5),
    ];
    let tsp = TSP::new_and_initialize_path(nodes);
    let cost = tsp.calculate_path_cost();
    // five steps of length floor(sqrt(2)) = 1, closed by floor(sqrt(50)) = 7
    assert_eq!(cost, 12);
}

#[test]
fn nn() {
    let nodes = vec![
        point(0, 1, 0),
        point(1, 5, 3),
        point(3, 4, 2),
        point(8, 2, 5),
        point(3, 3, 1),
        point(6, 5, 4),
    ];
    let mut tsp = TSP::new(nodes);
    let path = tsp.nn();

    let indexed_path: Vec<i64> = path.iter().map(|node| node.index).collect();
    assert_eq!(vec![0, 1, 2, 3, 4, 5, 0], indexed_path);

    let cost = tsp.calculate_path_cost();
    assert_eq!(cost, 22);
}

#[test]
fn swap_edges() {
    let path = vec![
        point(1, 0, 1),
        point(2, 0, 2),
        point(3, 0, 3),
        point(4, 0, 4),
        point(5, 0, 5),
        point(6, 0, 6),
        point(7, 0, 7),
        point(8, 0, 8),
    ];
    let mut tsp = TSP::new_and_initialize_path(path);

    tsp.swap_edges(0, 3);
    assert_eq!(labels_of(tsp.path()), vec![1, 4, 3, 2, 5, 6, 7, 8]);

    tsp.swap_edges(1, 4);
    assert_eq!(labels_of(tsp.path()), vec![1, 4, 5, 2, 3, 6, 7, 8]);

    tsp.swap_edges(2, 4);
    assert_eq!(labels_of(tsp.path()), vec![1, 4, 5, 3, 2, 6, 7, 8]);
}

#[test]
fn swap_edges_touches_only_the_segment() {
    let path: Vec<PlanePoint> = (1..=8).map(|v| point(v, 0, v)).collect();
    let mut tsp = TSP::new_and_initialize_path(path);
    tsp.swap_edges(0, 3);
    let after = labels_of(tsp.path());
    // exactly positions 1..=3 reversed, position 0 and 4..=7 unchanged
    assert_eq!(after[0], 1);
    assert_eq!(&after[1..4], &[4, 3, 2]);
    assert_eq!(&after[4..], &[5, 6, 7, 8]);
}

#[test]
fn two_opt_converges_from_two_starts() {
    let pts = reference_points();

    let start_1 = by_label(&pts, &[3, 6, 7, 4, 8, 2, 5, 0, 1]);
    let mut tsp_1 = TSP::new_and_initialize_path(start_1);
    assert_eq!(tsp_1.calculate_path_cost(), 248);
    tsp_1.two_opt();
    assert_eq!(tsp_1.calculate_path_cost(), 140);

    let start_2 = by_label(&pts, &[3, 7, 4, 1, 8, 2, 5, 6, 0]);
    let mut tsp_2 = TSP::new_and_initialize_path(start_2);
    assert_eq!(tsp_2.calculate_path_cost(), 218);
    tsp_2.two_opt();
    assert_eq!(tsp_2.calculate_path_cost(), 140);
}

#[test]
fn three_opt_improves_on_two_opt() {
    let pts = reference_points();

    let mut with_two_opt = TSP::new(pts.clone());
    with_two_opt.nn();
    let nn_cost = with_two_opt.calculate_path_cost();
    assert_eq!(nn_cost, 162);
    with_two_opt.two_opt();
    let two_opt_cost = with_two_opt.calculate_path_cost();
    assert_eq!(two_opt_cost, 141);

    let mut with_three_opt = TSP::new(pts);
    with_three_opt.nn();
    with_three_opt.three_opt();
    let three_opt_cost = with_three_opt.calculate_path_cost();
    assert!(three_opt_cost < nn_cost);
    assert!(three_opt_cost < two_opt_cost);
    assert_eq!(three_opt_cost, 140);
}

#[test]
fn three_opt_sm_is_non_worsening() {
    let pts = reference_points();
    // start from the raw input order, a long way from any optimum
    let mut tsp = TSP::new_and_initialize_path(pts);
    let before = tsp.calculate_path_cost();
    assert_eq!(before, 274);
    let path_before = labels_of(tsp.path());
    tsp.three_opt_sm(12345);
    let after = tsp.calculate_path_cost();
    assert!(after <= before);

    // still a closed tour over the same nodes, from the same origin
    let path_after = labels_of(tsp.path());
    assert_eq!(path_after.len(), path_before.len());
    assert_eq!(path_after[0], path_before[0]);
    let mut sorted_before = path_before.clone();
    let mut sorted_after = path_after.clone();
    sorted_before.sort();
    sorted_after.sort();
    assert_eq!(sorted_before, sorted_after);
}

#[test]
fn three_opt_leaves_short_tours_alone() {
    let nodes = vec![point(0, 0, 0), point(3, 0, 1), point(0, 4, 2)];
    let mut tsp = TSP::new(nodes);
    tsp.nn();
    let before = labels_of(tsp.path());
    tsp.three_opt();
    assert_eq!(labels_of(tsp.path()), before);
    tsp.three_opt_sm(99);
    assert_eq!(labels_of(tsp.path()), before);
}

#[test]
fn two_opt_leaves_an_optimal_square_alone() {
    // a unit-ish square in visiting order: already 2-opt optimal
    let square = vec![
        point(0, 0, 0),
        point(10, 0, 1),
        point(10, 10, 2),
        point(0, 10, 3),
    ];
    let mut tsp = TSP::new_and_initialize_path(square);
    let before = tsp.calculate_path_cost();
    assert_eq!(before, 40);
    tsp.two_opt();
    assert_eq!(labels_of(tsp.path()), vec![0, 1, 2, 3]);
    assert_eq!(tsp.calculate_path_cost(), 40);
}

#[test]
fn two_opt_uncrosses_a_square() {
    // the crossed visiting order of the same square is improved
    let crossed = vec![
        point(0, 0, 0),
        point(10, 10, 2),
        point(10, 0, 1),
        point(0, 10, 3),
    ];
    let mut tsp = TSP::new_and_initialize_path(crossed);
    let before = tsp.calculate_path_cost();
    assert!(before > 40);
    tsp.two_opt();
    assert_eq!(tsp.calculate_path_cost(), 40);
}

#[test]
fn nn_single_node_closes_on_itself() {
    let mut tsp = TSP::new(vec![point(7, 7, 0)]);
    let path = tsp.nn();
    assert_eq!(labels_of(&path), vec![0, 0]);
    assert_eq!(tsp.calculate_path_cost(), 0);
}
