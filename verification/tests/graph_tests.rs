use vehicle_routing::client::Client;
use vehicle_routing::graph::VehicleRoutingGraph;
use vehicle_routing::unordered_pair::UnorderedPair;

fn six_clients() -> Vec<Client> {
    vec![
        Client::new(0, 0, 0, 0),
        Client::new(1, 0, 700, 0),
        Client::new(2, 300, 400, 0),
        Client::new(3, 700, -1000, 0),
        Client::new(4, -400, -600, 0),
        Client::new(5, -400, 300, 0),
    ]
}

#[test]
fn test_basic_mst() {
    let clients = six_clients();
    let graph = VehicleRoutingGraph::new(&clients);

    let mst = graph.mst();
    assert_eq!(mst.len(), 5);
    assert!(mst.contains(&UnorderedPair::new(0, 2)));
    assert!(mst.contains(&UnorderedPair::new(0, 4)));
    assert!(mst.contains(&UnorderedPair::new(0, 5)));
    assert!(mst.contains(&UnorderedPair::new(1, 2)));
    assert!(mst.contains(&UnorderedPair::new(3, 4)));
}

#[test]
fn test_eulerian_tour() {
    let mst = vec![
        UnorderedPair::new(0, 2),
        UnorderedPair::new(0, 4),
        UnorderedPair::new(1, 2),
        UnorderedPair::new(1, 5),
        UnorderedPair::new(3, 4),
        UnorderedPair::new(3, 5),
    ];
    let matching: Vec<UnorderedPair> = Vec::new();

    let tour = VehicleRoutingGraph::find_eulerian_tour(&mst, &matching).unwrap();

    assert_eq!(tour.len(), mst.len() + 1);
    assert_eq!(*tour.first().unwrap(), 0);
    let mut current_vertex = tour.first().unwrap();
    for next_vertex in tour.iter().skip(1) {
        assert!(mst.contains(&UnorderedPair::new(*current_vertex, *next_vertex)));
        current_vertex = next_vertex;
    }
}

#[test]
fn graph_test_basic_mst() {
    let clients = six_clients();
    let graph = VehicleRoutingGraph::new(&clients);

    let mst = graph.mst();
    assert_eq!(mst.len(), 5);
    assert!(mst.contains(&UnorderedPair::new(0, 2)));
    assert!(mst.contains(&UnorderedPair::new(0, 4)));
    assert!(mst.contains(&UnorderedPair::new(0, 5)));
    assert!(mst.contains(&UnorderedPair::new(1, 2)));
    assert!(mst.contains(&UnorderedPair::new(3, 4)));
}

#[test]
fn graph_test_eulerian_tour() {
    let mst = vec![
        UnorderedPair::new(0, 2),
        UnorderedPair::new(0, 4),
        UnorderedPair::new(1, 2),
        UnorderedPair::new(1, 5),
        UnorderedPair::new(3, 4),
        UnorderedPair::new(3, 5),
    ];
    let matching: Vec<UnorderedPair> = Vec::new();

    let tour = VehicleRoutingGraph::find_eulerian_tour(&mst, &matching).unwrap();

    println!("{:?}", tour);

    assert_eq!(tour.len(), mst.len() + 1);
    assert_eq!(tour.first().unwrap(), &0);
    let mut current_vertex = tour.first().unwrap();
    for next_vertex in tour.iter().skip(1) {
        assert!(mst.contains(&UnorderedPair::new(*current_vertex, *next_vertex)));
        current_vertex = next_vertex;
    }
}

#[test]
fn mst_spans_every_client() {
    let clients = six_clients();
    let graph = VehicleRoutingGraph::new(&clients);
    let mst = graph.mst();
    assert_eq!(mst.len(), clients.len() - 1);
    for v in 0..clients.len() {
        assert!(mst.iter().any(|e| e.first == v || e.second == v));
    }
}

#[test]
fn mst_odd_degree_count_is_even() {
    let clients = six_clients();
    let graph = VehicleRoutingGraph::new(&clients);
    let mst = graph.mst();
    let mut degrees = vec![0usize; clients.len()];
    for e in &mst {
        degrees[e.first] += 1;
        degrees[e.second] += 1;
    }
    let odd = degrees.iter().filter(|d| *d % 2 == 1).count();
    assert_eq!(odd % 2, 0);
}

#[test]
fn matching_pairs_up_a_subset() {
    let clients = six_clients();
    let graph = VehicleRoutingGraph::new(&clients);
    let subset = vec![1, 2, 3, 4];
    let matching = graph.find_minimum_weight_matching(&subset).unwrap();
    assert_eq!(matching.len(), 2);
    let mut covered = vec![0usize; clients.len()];
    for e in &matching {
        assert!(subset.contains(&e.first));
        assert!(subset.contains(&e.second));
        covered[e.first] += 1;
        covered[e.second] += 1;
    }
    for v in &subset {
        assert_eq!(covered[*v], 1);
    }
}

#[test]
fn christofides_tour_visits_every_client_once() {
    let clients = six_clients();
    let graph = VehicleRoutingGraph::new(&clients);
    let tour = graph.chirstofides().unwrap();
    assert_eq!(tour.len(), clients.len() + 1);
    assert_eq!(tour[0], 0);
    assert_eq!(*tour.last().unwrap(), 0);
    let mut counts = vec![0usize; clients.len()];
    for v in &tour {
        counts[*v] += 1;
    }
    assert_eq!(counts[0], 2);
    for v in 1..clients.len() {
        assert_eq!(counts[v], 1);
    }
}

#[test]
fn distances_are_exact_fixed_point() {
    let clients = vec![
        Client::new(0, 0, 0, 0),
        Client::new(1, 300, 400, 0),
        Client::new(2, 0, 700, 0),
    ];
    let graph = VehicleRoutingGraph::new(&clients);
    assert_eq!(graph.distance(0, 1), 500);
    assert_eq!(graph.distance(1, 0), 500);
    assert_eq!(graph.distance(0, 0), 0);
    assert_eq!(graph.distance_to_depot(2), 700);
    // 1 -> 2: (300, -300), length 300 * sqrt(2) rounded up
    assert_eq!(graph.distance(1, 2), 425);
}

#[test]
fn neighbors_are_ranked_nearest_first() {
    let clients = six_clients();
    let graph = VehicleRoutingGraph::new(&clients);
    let ranked = graph.neighbors(1);
    assert_eq!(ranked.len(), 4);
    for w in ranked.windows(2) {
        assert!(graph.distance(1, w[0]) <= graph.distance(1, w[1]));
    }
    assert!(!ranked.contains(&1));
    assert!(!ranked.contains(&0));
}

#[test]
fn isqrt_rounds_up() {
    assert_eq!(vehicle_routing::geometry::isqrt(0), 0);
    assert_eq!(vehicle_routing::geometry::isqrt(1), 1);
    assert_eq!(vehicle_routing::geometry::isqrt(2), 2);
    assert_eq!(vehicle_routing::geometry::isqrt(25), 5);
    assert_eq!(vehicle_routing::geometry::isqrt(24), 5);
    assert_eq!(vehicle_routing::geometry::isqrt(26), 6);
    assert_eq!(vehicle_routing::geometry::isqrt(90_000_000_000_000_000), 300_000_000);
}

#[test]
fn distances_obey_the_triangle_inequality() {
    // rounding down would give 721 > 361 + 361 here; rounding up keeps the
    // triangle inequality
    let clients = vec![
        Client::new(0, 0, 0, 0),
        Client::new(1, 300, 200, 0),
        Client::new(2, 600, 400, 0),
    ];
    let graph = VehicleRoutingGraph::new(&clients);
    assert!(graph.distance(0, 2) <= graph.distance(0, 1) + graph.distance(1, 2));
    assert_eq!(graph.distance(0, 1), 361);
    assert_eq!(graph.distance(0, 2), 722);
}

#[test]
fn unordered_pair_is_canonical() {
    let p = UnorderedPair::new(5, 2);
    assert_eq!(p.first, 2);
    assert_eq!(p.second, 5);
    assert_eq!(p, UnorderedPair::new(2, 5));
}

#[test]
fn eulerian_tour_uses_matching_edges_too() {
    let mst = vec![
        UnorderedPair::new(0, 1),
        UnorderedPair::new(1, 2),
        UnorderedPair::new(2, 3),
    ];
    let matching = vec![UnorderedPair::new(0, 3)];
    let tour = VehicleRoutingGraph::find_eulerian_tour(&mst, &matching).unwrap();
    assert_eq!(tour.len(), mst.len() + matching.len() + 1);
    assert_eq!(tour[0], 0);
    let mut all = mst.clone();
    all.extend_from_slice(&matching);
    for w in tour.windows(2) {
        assert!(all.contains(&UnorderedPair::new(w[0], w[1])));
    }
}
