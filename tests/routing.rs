use rand::rngs::StdRng;
use rand::{Rng, SeedableRng};
use vehicle_routing::annealing::{accepts, Annealer, RunError, SimulatedAnnealing};
use vehicle_routing::builder::{generate_random_route_list, partition_routes};
use vehicle_routing::cost::{
    calculate_max_distance_of_all_route, calculate_total_distance_of_a_route,
    calculate_total_distance_of_all_route,
};
use vehicle_routing::operators::{
    get_neighbour, insertion_move, inversion_move, mutate_insertion, mutate_inversion, mutate_swap,
    neighbour_move, swap_move,
};
use vehicle_routing::point::{Point, Role};
use vehicle_routing::solution::list_from_points;

fn depot() -> Point {
    Point::new_depo(0)
}

fn customers(n: usize) -> Vec<Point> {
    (1..=n).map(Point::new_customer).collect()
}

fn route(ids: &[usize]) -> Vec<Point> {
    ids.iter()
        .map(|&i| if i == 0 { Point::new_depo(0) } else { Point::new_customer(i) })
        .collect()
}

fn ids(routes: &Vec<Vec<Point>>) -> Vec<Vec<usize>> {
    list_from_points(routes)
}

/// Symmetric matrix over points 0..=4 placed on a line at 0, 3, 7, 12, 20.
fn line_matrix() -> Vec<Vec<u64>> {
    let pos: [i64; 5] = [0, 3, 7, 12, 20];
    pos.iter()
        .map(|a| pos.iter().map(|b| (a - b).unsigned_abs()).collect())
        .collect()
}

fn square_matrix(n: usize) -> Vec<Vec<u64>> {
    (0..n).map(|i| (0..n).map(|j| ((i as i64 - j as i64).unsigned_abs() * 10) as u64).collect()).collect()
}

fn sorted_customer_ids(routes: &Vec<Vec<Point>>) -> Vec<usize> {
    let mut all: Vec<usize> = routes
        .iter()
        .flat_map(|r| r[1..r.len() - 1].iter().map(|p| p.id))
        .collect();
    all.sort();
    all
}

fn depot_bounded(routes: &Vec<Vec<Point>>) -> bool {
    routes.iter().all(|r| r.len() >= 2 && r[0] == depot() && r[r.len() - 1] == depot())
}

fn run(instance: &SimulatedAnnealing, seed: u64, initial_temp: f64, final_temp: f64, cooling: f64, iterations: usize) -> (Vec<Vec<usize>>, u128, Vec<u128>) {
    let mut rng = StdRng::seed_from_u64(seed);
    let mut search: Annealer = instance.start(&mut rng);
    let mut bests = vec![search.best_cost];
    let mut temp = initial_temp;
    while temp > final_temp {
        for _ in 0..iterations {
            let candidate = search.propose(&mut rng);
            let cost = search.cost_of(&candidate);
            let delta = cost as f64 - search.current_cost as f64;
            let u: f64 = rng.gen();
            let worse_ok = (-delta / temp).exp() > u;
            search.step(candidate, worse_ok);
            bests.push(search.best_cost);
        }
        temp *= cooling;
    }
    (search.best_route_ids(), search.best_cost, bests)
}

#[test]
fn point_constructors_set_role() {
    assert_eq!(Point::new_customer(3), Point { id: 3, role: Role::Customer });
    assert_eq!(Point::new_depo(0), Point { id: 0, role: Role::Depot });
    assert_eq!(Point::new_security_point(7), Point { id: 7, role: Role::SecurityPoint });
}

#[test]
fn route_cost_walks_consecutive_points() {
    let m = line_matrix();
    assert_eq!(calculate_total_distance_of_a_route(&route(&[0, 1, 2, 0]), &m), 3 + 4 + 7);
    assert_eq!(calculate_total_distance_of_a_route(&route(&[0, 4, 0]), &m), 40);
    assert_eq!(calculate_total_distance_of_a_route(&route(&[0, 0]), &m), 0);
}

#[test]
fn single_point_route_costs_nothing() {
    let mut m = line_matrix();
    m[0][0] = 99;
    assert_eq!(calculate_total_distance_of_a_route(&route(&[0]), &m), 0);
}

#[test]
fn total_and_max_over_routes() {
    let m = line_matrix();
    let routes = vec![route(&[0, 1, 2, 0]), route(&[0, 3, 4, 0])];
    assert_eq!(calculate_total_distance_of_all_route(&routes, &m), 14 + 40);
    assert_eq!(calculate_max_distance_of_all_route(&routes, &m), 40);
    assert_eq!(calculate_max_distance_of_all_route(&vec![], &m), 0);
}

#[test]
fn large_distances_do_not_overflow() {
    let big = u64::MAX;
    let m = vec![vec![0, big], vec![big, 0]];
    let r = vec![Point::new_depo(0), Point::new_customer(1), Point::new_depo(0)];
    assert_eq!(calculate_total_distance_of_a_route(&r, &m), 2 * big as u128);
}

#[test]
fn one_vehicle_objective_is_total() {
    let m = line_matrix();
    let instance = SimulatedAnnealing::new(4, 1, depot(), customers(4), m.clone(), 10).unwrap();
    let mut rng = StdRng::seed_from_u64(5);
    let search = instance.start(&mut rng);
    assert_eq!(search.current.len(), 1);
    assert_eq!(sorted_customer_ids(&search.current), vec![1, 2, 3, 4]);
    assert_eq!(
        calculate_max_distance_of_all_route(&search.current, &m),
        calculate_total_distance_of_all_route(&search.current, &m)
    );
}

#[test]
fn list_from_points_keeps_order() {
    let routes = vec![route(&[0, 2, 1, 0]), route(&[0, 0])];
    assert_eq!(ids(&routes), vec![vec![0, 2, 1, 0], vec![0, 0]]);
}

#[test]
fn partition_places_the_remainder() {
    let routes = partition_routes(&customers(5), 2, depot());
    assert_eq!(ids(&routes), vec![vec![0, 1, 2, 3, 0], vec![0, 4, 5, 0]]);
    let routes = partition_routes(&customers(7), 3, depot());
    assert_eq!(ids(&routes), vec![vec![0, 1, 2, 3, 0], vec![0, 4, 5, 0], vec![0, 6, 7, 0]]);
}

#[test]
fn partition_with_more_vehicles_than_customers() {
    let routes = partition_routes(&customers(1), 3, depot());
    assert_eq!(ids(&routes), vec![vec![0, 1, 0], vec![0, 0], vec![0, 0]]);
    let routes = partition_routes(&vec![], 2, depot());
    assert_eq!(ids(&routes), vec![vec![0, 0], vec![0, 0]]);
}

#[test]
fn builder_covers_every_customer_once() {
    for seed in 0..20 {
        let mut rng = StdRng::seed_from_u64(seed);
        let routes = generate_random_route_list(3, depot(), &customers(10), &mut rng);
        assert_eq!(routes.len(), 3);
        assert!(depot_bounded(&routes));
        assert_eq!(sorted_customer_ids(&routes), (1..=10).collect::<Vec<_>>());
        let sizes: Vec<usize> = routes.iter().map(|r| r.len() - 2).collect();
        assert_eq!(sizes, vec![4, 3, 3]);
    }
}

#[test]
fn builder_shuffles_the_customers() {
    let mut moved = false;
    for seed in 0..20 {
        let mut rng = StdRng::seed_from_u64(seed);
        let routes = generate_random_route_list(1, depot(), &customers(10), &mut rng);
        if ids(&routes)[0] != vec![0, 1, 2, 3, 4, 5, 6, 7, 8, 9, 10, 0] {
            moved = true;
        }
    }
    assert!(moved);
}

#[test]
fn insertion_moves_one_customer() {
    let routes = vec![route(&[0, 1, 2, 0]), route(&[0, 3, 0])];
    let r = insertion_move(&routes, 0, 1, 2, 1);
    assert_eq!(ids(&r), vec![vec![0, 1, 0], vec![0, 2, 3, 0]]);
    let r = insertion_move(&routes, 0, 1, 1, 2);
    assert_eq!(ids(&r), vec![vec![0, 2, 0], vec![0, 3, 1, 0]]);
}

#[test]
fn insertion_noop_returns_same_routes() {
    let routes = vec![route(&[0, 1, 2, 0]), route(&[0, 0])];
    assert_eq!(insertion_move(&routes, 0, 0, 1, 1), routes);
    assert_eq!(insertion_move(&routes, 1, 0, 1, 1), routes);
}

#[test]
fn swap_exchanges_customers() {
    let routes = vec![route(&[0, 1, 2, 0]), route(&[0, 3, 4, 0])];
    let r = swap_move(&routes, 0, 1, 2, 1);
    assert_eq!(ids(&r), vec![vec![0, 1, 3, 0], vec![0, 2, 4, 0]]);
}

#[test]
fn swap_noop_returns_same_routes() {
    let routes = vec![route(&[0, 1, 2, 0]), route(&[0, 3, 0])];
    assert_eq!(swap_move(&routes, 0, 1, 1, 1), routes);
    assert_eq!(swap_move(&routes, 0, 0, 1, 2), routes);
}

#[test]
fn inversion_reverses_a_segment() {
    let routes = vec![route(&[0, 1, 2, 3, 4, 0])];
    let r = inversion_move(&routes, 0, 1, 2);
    assert_eq!(ids(&r), vec![vec![0, 3, 2, 1, 4, 0]]);
    let r = inversion_move(&routes, 0, 2, 2);
    assert_eq!(ids(&r), vec![vec![0, 1, 4, 3, 2, 0]]);
    let r = inversion_move(&routes, 0, 1, 3);
    assert_eq!(ids(&r), vec![vec![0, 4, 3, 2, 1, 0]]);
}

#[test]
fn inversion_noop_returns_same_routes() {
    let routes = vec![route(&[0, 1, 2, 0]), route(&[0, 3, 4, 0])];
    assert_eq!(inversion_move(&routes, 0, 1, 2), routes);
    assert_eq!(inversion_move(&routes, 1, 1, 2), routes);
}

#[test]
fn random_moves_keep_depots_and_customers() {
    let mut rng = StdRng::seed_from_u64(11);
    let mut routes = vec![route(&[0, 1, 2, 3, 4, 0]), route(&[0, 5, 6, 7, 0]), route(&[0, 8, 0])];
    let mut changed = false;
    for i in 0..300 {
        let next = match i % 4 {
            0 => mutate_insertion(&routes, &mut rng),
            1 => mutate_swap(&routes, &mut rng),
            2 => mutate_inversion(&routes, &mut rng),
            _ => get_neighbour(&routes, &mut rng),
        };
        assert!(depot_bounded(&next));
        assert_eq!(sorted_customer_ids(&next), (1..=8).collect::<Vec<_>>());
        assert_eq!(next.len(), 3);
        assert_eq!(next.iter().map(|r| r.len()).sum::<usize>(), 14);
        if next != routes {
            changed = true;
        }
        routes = next;
    }
    assert!(changed);
}

#[test]
fn equal_cost_is_always_accepted() {
    assert!(accepts(10, 10, false));
    assert!(accepts(9, 10, false));
    assert!(!accepts(11, 10, false));
    assert!(accepts(11, 10, true));
}

#[test]
fn invalid_configuration_is_refused() {
    let m = line_matrix();
    assert_eq!(SimulatedAnnealing::new(4, 0, depot(), customers(4), m.clone(), 10).err(), Some(RunError::InvalidConfiguration));
    assert_eq!(SimulatedAnnealing::new(4, 2, depot(), customers(4), m, 0).err(), Some(RunError::InvalidConfiguration));
}

#[test]
fn invalid_input_is_refused() {
    let m = line_matrix();
    assert_eq!(SimulatedAnnealing::new(3, 2, depot(), customers(4), m.clone(), 10).err(), Some(RunError::InvalidInput));
    assert_eq!(SimulatedAnnealing::new(5, 2, depot(), customers(5), m.clone(), 10).err(), Some(RunError::InvalidInput));
    let mut ragged = m.clone();
    ragged[2].pop();
    assert_eq!(SimulatedAnnealing::new(4, 2, depot(), customers(4), ragged, 10).err(), Some(RunError::InvalidInput));
    assert_eq!(SimulatedAnnealing::new(4, 2, Point::new_depo(9), customers(4), m.clone(), 10).err(), Some(RunError::InvalidInput));
    assert!(SimulatedAnnealing::new(4, 2, depot(), customers(4), m, 10).is_ok());
}

#[test]
fn seeded_run_is_reproducible() {
    let m = line_matrix();
    let instance = SimulatedAnnealing::new(4, 2, depot(), customers(4), m.clone(), 50).unwrap();
    let (routes_a, cost_a, _) = run(&instance, 42, 100.0, 1.0, 0.9, 50);
    let (routes_b, cost_b, _) = run(&instance, 42, 100.0, 1.0, 0.9, 50);
    assert_eq!(routes_a, routes_b);
    assert_eq!(cost_a, cost_b);
    assert_eq!(routes_a.len(), 2);
    let mut seen: Vec<usize> = routes_a.iter().flat_map(|r| r[1..r.len() - 1].to_vec()).collect();
    seen.sort();
    assert_eq!(seen, vec![1, 2, 3, 4]);
    // The best split of points at 3, 7, 12, 20 over two routes is {3, 7, 12} and {20}.
    assert_eq!(cost_a, 40);
}

#[test]
fn best_cost_never_grows() {
    let m = square_matrix(9);
    let instance = SimulatedAnnealing::new(8, 3, depot(), customers(8), m, 20).unwrap();
    let (routes, cost, bests) = run(&instance, 7, 50.0, 1.0, 0.8, 20);
    assert!(bests.windows(2).all(|w| w[1] <= w[0]));
    assert!(routes.iter().all(|r| r[0] == 0 && r[r.len() - 1] == 0));
    assert_eq!(*bests.last().unwrap(), cost);
}

#[test]
fn neighbour_move_applies_the_chosen_operator() {
    let routes = vec![route(&[0, 1, 2, 3, 0]), route(&[0, 4, 5, 0])];
    let r = neighbour_move(&routes, 0, 0, 1, 1, 2);
    assert_eq!(ids(&r), vec![vec![0, 2, 3, 0], vec![0, 4, 1, 5, 0]]);
    let r = neighbour_move(&routes, 1, 0, 1, 3, 2);
    assert_eq!(ids(&r), vec![vec![0, 1, 2, 5, 0], vec![0, 4, 3, 0]]);
    let r = neighbour_move(&routes, 2, 0, 0, 1, 2);
    assert_eq!(ids(&r), vec![vec![0, 3, 2, 1, 0], vec![0, 4, 5, 0]]);
    assert_eq!(neighbour_move(&routes, 2, 1, 0, 1, 2), routes);
}

#[test]
fn run_keeps_one_route_per_vehicle() {
    let m = square_matrix(9);
    let instance = SimulatedAnnealing::new(8, 3, depot(), customers(8), m, 20).unwrap();
    assert_eq!(instance.no_of_iteration, 20);
    let (routes, _, _) = run(&instance, 3, 50.0, 1.0, 0.8, 20);
    assert_eq!(routes.len(), 3);
    let mut seen: Vec<usize> = routes.iter().flat_map(|r| r[1..r.len() - 1].to_vec()).collect();
    seen.sort();
    assert_eq!(seen, (1..=8).collect::<Vec<_>>());
}
