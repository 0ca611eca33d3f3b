use espprc::oracle::Oracle;
use espprc::solve::{length_feasible, resource_feasible, resources_fit, solve, SolveError};

fn two_vertex() -> Oracle {
    let dist = vec![vec![0, 5], vec![5, 0]];
    let cost = vec![vec![0, -3], vec![0, 0]];
    Oracle::new(dist, cost).unwrap()
}

#[test]
fn single_customer_route_improves() {
    assert_eq!(solve(&two_vertex(), 1, 1, 100), Ok(-3));
}

#[test]
fn zero_capacity_blocks_customer() {
    assert_eq!(solve(&two_vertex(), 1, 0, 100), Ok(0));
}

#[test]
fn short_length_bound_blocks_route() {
    assert_eq!(solve(&two_vertex(), 1, 1, 9), Ok(0));
}

#[test]
fn length_bound_exactly_met() {
    assert_eq!(solve(&two_vertex(), 1, 1, 10), Ok(-3));
}

#[test]
fn three_vertices_best_route_visits_both() {
    let dist = vec![vec![0, 1, 1], vec![1, 0, 1], vec![1, 1, 0]];
    let cost = vec![vec![0, -2, -1], vec![0, 0, -2], vec![-1, -1, 0]];
    let d = Oracle::new(dist, cost).unwrap();
    assert_eq!(solve(&d, 0, 0, 100), Ok(-5));
    // with room for two arcs only, a single customer is the best
    assert_eq!(solve(&d, 0, 0, 2), Ok(-2));
}

#[test]
fn resource_capacity_limits_route() {
    // vertices 1 and 3 both consume resource 0; capacity 1 allows one of them
    let n = 4;
    let dist = vec![vec![1; n]; n];
    let mut cost = vec![vec![0; n]; n];
    cost[0][1] = -4;
    cost[1][3] = -4;
    cost[0][3] = -1;
    let d = Oracle::new(dist, cost).unwrap();
    assert_eq!(solve(&d, 1, 2, 100), Ok(-8));
    assert_eq!(solve(&d, 1, 1, 100), Ok(-4));
}

#[test]
fn nonnegative_costs_keep_baseline() {
    let dist = vec![vec![0, 2, 2], vec![2, 0, 2], vec![2, 2, 0]];
    let cost = vec![vec![0, 1, 3], vec![1, 0, 1], vec![2, 1, 0]];
    let d = Oracle::new(dist, cost).unwrap();
    assert_eq!(solve(&d, 1, 5, 100), Ok(0));
}

#[test]
fn empty_instance_rejected() {
    let d = Oracle::new(Vec::new(), Vec::new()).unwrap();
    assert_eq!(solve(&d, 0, 1, 10), Err(SolveError::EmptyInstance));
}

#[test]
fn too_many_resources_rejected() {
    // ids 0 and 1 need one bit
    assert_eq!(solve(&two_vertex(), 2, 1, 100), Err(SolveError::TooManyResources));
    assert!(resources_fit(2, 1));
    assert!(!resources_fit(2, 2));
    assert!(resources_fit(5, 3));
    assert!(!resources_fit(4, 3));
    assert!(resources_fit(1, 0));
    assert!(!resources_fit(3, 65));
}

#[test]
fn oracle_rejects_ragged_matrices() {
    assert!(Oracle::new(vec![vec![0, 1], vec![1]], vec![vec![0, 0], vec![0, 0]]).is_none());
    assert!(Oracle::new(vec![vec![0, 1], vec![1, 0]], vec![vec![0, 0]]).is_none());
    let d = two_vertex();
    assert_eq!(d.n(), 2);
    assert_eq!(d.d(0, 1), 5);
    assert_eq!(d.aux(0, 1), -3);
    assert_eq!(d.aux(1, 0), 0);
}

#[test]
fn feasibility_tests() {
    assert!(length_feasible(3, 4, 3, 10));
    assert!(!length_feasible(3, 4, 4, 10));
    // accepted at 10, still accepted at 11
    assert!(length_feasible(3, 4, 3, 11));
    // vertex 3 uses resources 0 and 1
    let q = vec![1usize, 0];
    assert!(resource_feasible(&q, 3, 2));
    assert!(!resource_feasible(&q, 3, 1));
    assert!(!resource_feasible(&q, 3, 0));
    // vertex 2 uses resource 1 only
    assert!(resource_feasible(&q, 2, 1));
}

#[test]
fn single_vertex_returns_baseline() {
    let d = Oracle::new(vec![vec![0]], vec![vec![-9]]).unwrap();
    assert_eq!(solve(&d, 0, 0, 100), Ok(0));
}

#[test]
fn step_length_test_prunes_route() {
    // 0 -> 1 -> 2 -> 0 has length 3, but after the first arc the way back
    // from 1 is long, so the search never extends past 1
    let dist = vec![vec![0, 1, 1], vec![50, 0, 1], vec![1, 1, 0]];
    let cost = vec![vec![0, -5, 0], vec![0, 0, -5], vec![0, 0, 0]];
    let d = Oracle::new(dist, cost).unwrap();
    assert_eq!(solve(&d, 0, 0, 10), Ok(0));
    assert_eq!(solve(&d, 0, 0, 60), Ok(-10));
}
