use salesman::points::PlanePoint;
use salesman::tsp_ext::three_opt::ThreeOpt;

fn point(x: i64, y: i64, index: i64) -> PlanePoint {
    PlanePoint::new(x, y, index)
}

fn labels_of(path: &[PlanePoint]) -> Vec<i64> {
    path.iter().map(|p| p.index).collect()
}

#[test]
fn solver_swap_edges_reverses_the_inner_segment() {
    let path: Vec<PlanePoint> = (1..=8).map(|v| point(v, 0, v)).collect();
    let mut solver = ThreeOpt::new(Vec::new(), path);
    solver.swap_edges(0, 3);
    assert_eq!(labels_of(solver.path()), vec![1, 4, 3, 2, 5, 6, 7, 8]);
    solver.swap_edges(0, 3);
    assert_eq!(labels_of(solver.path()), vec![1, 2, 3, 4, 5, 6, 7, 8]);
}

#[test]
fn solver_improves_a_crossed_tour() {
    let crossed = vec![
        point(0, 0, 0),
        point(10, 10, 2),
        point(10, 0, 1),
        point(0, 10, 3),
        point(0, 5, 4),
        point(5, 12, 5),
    ];
    let nodes = crossed.clone();
    let mut solver = ThreeOpt::new(nodes, crossed);
    let before = solver.calculate_path_cost();
    let result = solver.solve();
    let after = solver.calculate_path_cost();
    assert!(after <= before);
    assert_eq!(labels_of(&result), labels_of(solver.path()));
    assert_eq!(result[0].index, 0);
    let mut sorted = labels_of(&result);
    sorted.sort();
    assert_eq!(sorted, vec![0, 1, 2, 3, 4, 5]);
}

#[test]
fn solver_sm_keeps_the_tour_closed() {
    let tour = vec![
        point(0, 0, 0),
        point(30, 40, 1),
        point(3, 4, 2),
        point(25, 7, 3),
        point(9, 32, 4),
        point(12, 12, 5),
    ];
    let mut solver = ThreeOpt::new(tour.clone(), tour);
    let result = solver.solve_sm(2024);
    assert_eq!(result.len(), 6);
    assert_eq!(result[0].index, 0);
    let mut sorted = labels_of(&result);
    sorted.sort();
    assert_eq!(sorted, vec![0, 1, 2, 3, 4, 5]);
}
