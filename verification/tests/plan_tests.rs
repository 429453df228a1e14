use vehicle_routing::client::Client;
use vehicle_routing::problem::VehicleRoutingProblem;
use vehicle_routing::rng::RandomSource;
use vehicle_routing::routing_plan::{InfeasibleError, InsertionHeuristic, LocalSearchError, RemovalHeuristic, RoutingPlan};

/// Three customers on a line east of the depot, demands 4 each.
fn line_instance(vehicles: usize, capacity: u32) -> VehicleRoutingProblem {
    let clients = vec![
        Client::new(0, 0, 0, 0),
        Client::new(1, 100, 0, 4),
        Client::new(2, 200, 0, 4),
        Client::new(3, 300, 0, 4),
    ];
    VehicleRoutingProblem::new("line".to_string(), vehicles, capacity, clients).unwrap()
}

#[test]
fn feasible_accepts_a_valid_split() {
    let problem = line_instance(2, 10);
    let plan = RoutingPlan::new(vec![vec![1, 2], vec![3]]);
    assert!(plan.feasible(&problem).is_ok());
}

#[test]
fn feasible_rejects_capacity_excess() {
    let problem = line_instance(2, 10);
    let plan = RoutingPlan::new(vec![vec![1, 2, 3], vec![]]);
    assert_eq!(plan.feasible(&problem), Err(InfeasibleError::ExceedsVehicleCapacity));
}

#[test]
fn feasible_rejects_duplicates_and_omissions() {
    let problem = line_instance(3, 100);
    let duplicated = RoutingPlan::new(vec![vec![1, 2], vec![2, 3]]);
    assert_eq!(duplicated.feasible(&problem), Err(InfeasibleError::InvalidTour));
    let missing = RoutingPlan::new(vec![vec![1], vec![2]]);
    assert_eq!(missing.feasible(&problem), Err(InfeasibleError::InvalidTour));
    let depot_inside = RoutingPlan::new(vec![vec![0, 1, 2], vec![3]]);
    assert_eq!(depot_inside.feasible(&problem), Err(InfeasibleError::InvalidTour));
}

#[test]
fn feasible_rejects_too_many_routes() {
    let problem = line_instance(2, 100);
    let plan = RoutingPlan::new(vec![vec![1], vec![2], vec![3]]);
    assert_eq!(plan.feasible(&problem), Err(InfeasibleError::TooManyVehicles));
}

#[test]
fn value_sums_depot_closed_routes() {
    let problem = line_instance(2, 100);
    let plan = RoutingPlan::new(vec![vec![1, 2, 3], vec![]]);
    // 100 out, 100 + 100 along the line, 300 back; the empty route is free
    assert_eq!(plan.value(&problem), 600);
    let split = RoutingPlan::new(vec![vec![1, 2], vec![3]]);
    assert_eq!(split.value(&problem), 1000);
}

#[test]
fn partitioner_splits_when_one_vehicle_cannot_take_all() {
    let problem = line_instance(2, 10);
    let tour = vec![0, 1, 2, 3, 0];
    let plan = problem.partition_tour(&tour).unwrap();
    // every returned partition is feasible
    assert!(plan.feasible(&problem).is_ok());
    for route in &plan.routes {
        let demand: u32 = route.iter().map(|c| problem.demand(*c)).sum();
        assert!(demand <= 10);
    }
}

#[test]
fn partitioner_fails_when_no_rotation_fits() {
    let problem = line_instance(1, 10);
    let tour = vec![0, 1, 2, 3, 0];
    assert!(problem.partition_tour(&tour).is_none());
}

#[test]
fn intra_swap_is_self_inverse_on_value() {
    let problem = line_instance(1, 100);
    let mut plan = RoutingPlan::new(vec![vec![1, 2, 3]]);
    let original = plan.value(&problem);
    assert!(plan.intra_swap(1, 3).is_ok());
    assert_eq!(plan.routes, vec![vec![3, 2, 1]]);
    assert!(plan.intra_swap(1, 3).is_ok());
    assert_eq!(plan.routes, vec![vec![1, 2, 3]]);
    assert_eq!(plan.value(&problem), original);
}

#[test]
fn intra_swap_reports_misuse() {
    let mut plan = RoutingPlan::new(vec![vec![1, 2], vec![3]]);
    assert_eq!(plan.intra_swap(9, 1), Err(LocalSearchError::InvalidTour));
    assert_eq!(plan.intra_swap(1, 3), Err(LocalSearchError::InvalidArguments));
    assert_eq!(plan.intra_swap(1, 1), Err(LocalSearchError::InvalidArguments));
    assert_eq!(plan.routes, vec![vec![1, 2], vec![3]]);
}

#[test]
fn inter_swap_exchanges_across_routes() {
    let problem = line_instance(2, 100);
    let mut plan = RoutingPlan::new(vec![vec![1, 2], vec![3]]);
    assert_eq!(plan.inter_swap(&problem, 1, 1), Err(LocalSearchError::InvalidArguments));
    assert!(plan.inter_swap(&problem, 1, 3).is_ok());
    let mut all: Vec<usize> = plan.routes.iter().flatten().cloned().collect();
    all.sort();
    assert_eq!(all, vec![1, 2, 3]);
    assert!(plan.routes[0].contains(&3));
    assert!(plan.routes[1].contains(&1));
}

#[test]
fn insert_cost_picks_the_cheapest_gap() {
    let problem = line_instance(1, 100);
    let mut rng = RandomSource::new(7);
    let mut plan = RoutingPlan::new(vec![vec![1, 3]]);
    plan.insert(&problem, 2, InsertionHeuristic::Cost, &mut rng);
    assert_eq!(plan.routes, vec![vec![1, 2, 3]]);
}

#[test]
fn insert_distance_adds_the_client_once() {
    let problem = line_instance(2, 100);
    let mut rng = RandomSource::new(11);
    let mut plan = RoutingPlan::new(vec![vec![1, 3], vec![2]]);
    // remove customer 2, then reinsert it by proximity
    plan.remove(&problem, 2, 1, RemovalHeuristic::Sequential);
    plan.insert(&problem, 2, InsertionHeuristic::Distance, &mut rng);
    let mut all: Vec<usize> = plan.routes.iter().flatten().cloned().collect();
    all.sort();
    assert_eq!(all, vec![1, 2, 3]);
}

#[test]
fn remove_sequential_takes_consecutive_stops() {
    let problem = line_instance(1, 100);
    let mut plan = RoutingPlan::new(vec![vec![1, 2, 3]]);
    plan.remove(&problem, 2, 2, RemovalHeuristic::Sequential);
    assert_eq!(plan.routes, vec![vec![1]]);
}

#[test]
fn remove_concentric_takes_the_neighbourhood() {
    let problem = line_instance(1, 100);
    let mut plan = RoutingPlan::new(vec![vec![1, 2, 3]]);
    plan.remove(&problem, 2, 2, RemovalHeuristic::Concentric);
    assert_eq!(plan.routes, vec![vec![3]]);
}

#[test]
fn local_search_keeps_the_customers() {
    let problem = line_instance(2, 100);
    let mut rng = RandomSource::new(3);
    let mut plan = RoutingPlan::new(vec![vec![1, 2], vec![3]]);
    for _ in 0..50 {
        let value = plan.local_search(&problem, &mut rng);
        assert_eq!(value, plan.value(&problem));
        let mut all: Vec<usize> = plan.routes.iter().flatten().cloned().collect();
        all.sort();
        assert_eq!(all, vec![1, 2, 3]);
    }
}

#[test]
fn solve_produces_a_covering_plan() {
    let problem = line_instance(2, 10);
    let mut rng = RandomSource::new(42);
    let solution = problem.solve(Some(0), &mut rng).unwrap();
    assert!(!solution.is_optimal);
    assert_eq!(solution.instance_name, "line");
    let mut all: Vec<usize> = solution.routes.iter().flatten().cloned().collect();
    all.sort();
    assert_eq!(all, vec![1, 2, 3]);
    assert!(solution.routes.len() <= 2);
    let plan = RoutingPlan::new(solution.routes.clone());
    assert_eq!(plan.value(&problem), solution.cost);
}

#[test]
fn solve_reports_an_impossible_instance() {
    let problem = line_instance(1, 10);
    let mut rng = RandomSource::new(42);
    let result = problem.solve(Some(0), &mut rng);
    assert_eq!(result.unwrap_err(), vehicle_routing::errors::SolveError::NoFeasiblePartition);
}

#[test]
fn instance_validation_rejects_bad_input() {
    let good = vec![Client::new(0, 0, 0, 0), Client::new(1, 100, 0, 1)];
    assert!(VehicleRoutingProblem::new("ok".to_string(), 1, 5, good).is_some());
    let bad_ids = vec![Client::new(0, 0, 0, 0), Client::new(5, 100, 0, 1)];
    assert!(VehicleRoutingProblem::new("ids".to_string(), 1, 5, bad_ids).is_none());
    let bad_coords = vec![Client::new(0, 0, 0, 0), Client::new(1, 200_000_000, 0, 1)];
    assert!(VehicleRoutingProblem::new("coords".to_string(), 1, 5, bad_coords).is_none());
    assert!(VehicleRoutingProblem::new("fleet".to_string(), 0, 5, vec![Client::new(0, 0, 0, 0)]).is_none());
}

#[test]
fn shifts_report_missing_clients_as_invalid_tour() {
    let problem = line_instance(2, 100);
    let mut rng = RandomSource::new(5);
    let mut plan = RoutingPlan::new(vec![vec![1, 2], vec![3]]);
    assert_eq!(plan.intra_shift(&problem, 9), Err(LocalSearchError::InvalidTour));
    assert_eq!(plan.inter_shift(&problem, 9, &mut rng), Err(LocalSearchError::InvalidTour));
    assert_eq!(plan.routes, vec![vec![1, 2], vec![3]]);
}

#[test]
fn inter_shift_needs_a_second_route() {
    let problem = line_instance(1, 100);
    let mut rng = RandomSource::new(5);
    let mut plan = RoutingPlan::new(vec![vec![1, 2, 3]]);
    assert_eq!(plan.inter_shift(&problem, 2, &mut rng), Err(LocalSearchError::InvalidTour));
    assert_eq!(plan.routes, vec![vec![1, 2, 3]]);
}

#[test]
fn intra_shift_moves_a_client_to_its_best_gap() {
    let problem = line_instance(1, 100);
    let mut plan = RoutingPlan::new(vec![vec![1, 3, 2]]);
    assert!(plan.intra_shift(&problem, 2).is_ok());
    assert_eq!(plan.routes, vec![vec![1, 2, 3]]);
}

#[test]
fn remove_sequential_accepts_a_zero_size() {
    let problem = line_instance(1, 100);
    let mut plan = RoutingPlan::new(vec![vec![1, 2, 3]]);
    plan.remove(&problem, 2, 0, RemovalHeuristic::Sequential);
    assert_eq!(plan.routes, vec![vec![1, 2, 3]]);
}

#[test]
fn solve_improves_or_keeps_the_initial_plan() {
    // six customers around the depot, a short real search budget
    let clients = vec![
        Client::new(0, 0, 0, 0),
        Client::new(1, 100, 0, 2),
        Client::new(2, 0, 100, 2),
        Client::new(3, -100, 0, 2),
        Client::new(4, 0, -100, 2),
        Client::new(5, 200, 200, 2),
        Client::new(6, -200, -200, 2),
    ];
    let problem = VehicleRoutingProblem::new("ring".to_string(), 3, 6, clients).unwrap();
    let mut rng = RandomSource::new(17);
    let solution = problem.solve(Some(1), &mut rng).unwrap();
    let mut all: Vec<usize> = solution.routes.iter().flatten().cloned().collect();
    all.sort();
    assert_eq!(all, vec![1, 2, 3, 4, 5, 6]);
    let plan = RoutingPlan::new(solution.routes.clone());
    assert_eq!(plan.value(&problem), solution.cost);
}

#[test]
fn inter_shift_is_a_no_op_when_capacity_blocks() {
    // two routes, so the drawn target is forced; moving anyone breaches 7
    let problem = line_instance(2, 7);
    let mut rng = RandomSource::new(9);
    let mut plan = RoutingPlan::new(vec![vec![1, 2], vec![3]]);
    assert!(plan.inter_shift(&problem, 1, &mut rng).is_ok());
    assert_eq!(plan.routes, vec![vec![1, 2], vec![3]]);
}
