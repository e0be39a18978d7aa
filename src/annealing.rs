use vstd::prelude::*;
use vstd::multiset::Multiset;
use rand::rngs::StdRng;
use crate::point::Point;
use crate::cost::{square, objective, total_cost, costs_fit, calculate_max_distance_of_all_route, lemma_one_route_objective_is_total};
use crate::builder::{generate_random_route_list, lemma_partition_covers, split};
use crate::operators::{get_neighbour, neighbour_picks_ok, neighbour_result};
use crate::solution::{copy_routes, ids_below, interior, list_from_points, routes_view, solution_ok, visited};

verus! {

broadcast use {vstd::multiset::group_multiset_axioms, vstd::seq_lib::group_to_multiset_ensures};

/// Why a run is refused before the search starts.
#[derive(Clone, Copy, Debug, PartialEq, Eq, Structural)]
pub enum RunError {
    /// No vehicle, or no inner iteration per temperature level.
    InvalidConfiguration,
    /// The customer count, the distance matrix or a point id does not fit the
    /// rest of the input.
    InvalidInput,
}

/// The inputs agree with each other: the count matches the list, the matrix is
/// square and every point id indexes it.
pub open spec fn input_ok(
    no_of_customer: usize,
    depo: Point,
    customer_list: Seq<Point>,
    distance_matrix: Seq<Vec<u64>>,
) -> bool {
    &&& customer_list.len() == no_of_customer
    &&& square(distance_matrix)
    &&& depo.id < distance_matrix.len()
    &&& ids_below(customer_list, distance_matrix.len())
}

/// The read-only context of a run: the depot, the customers, the fleet size
/// and the distances.
pub struct SimulatedAnnealing {
    pub no_of_customer: usize,
    pub no_of_vehicle: usize,
    pub depo: Point,
    pub customer_list: Vec<Point>,
    pub distance_matrix: Vec<Vec<u64>>,
    pub no_of_iteration: usize,
}

impl SimulatedAnnealing {
    pub open spec fn wf(&self) -> bool {
        &&& self.no_of_vehicle >= 1
        &&& self.no_of_iteration >= 1
        &&& input_ok(self.no_of_customer, self.depo, self.customer_list@, self.distance_matrix@)
    }

    /// Checks the inputs and the number of inner steps per temperature level,
    /// and holds them for runs, so that a bad run is refused before any search.
    pub fn new(
        no_of_customer: usize,
        no_of_vehicle: usize,
        depo: Point,
        customer_list: Vec<Point>,
        distance_matrix: Vec<Vec<u64>>,
        no_of_iteration: usize,
    ) -> (r: Result<SimulatedAnnealing, RunError>)
        ensures
            (r == Err::<SimulatedAnnealing, RunError>(RunError::InvalidConfiguration)) <==> (
            no_of_vehicle == 0 || no_of_iteration == 0),
            (r == Err::<SimulatedAnnealing, RunError>(RunError::InvalidInput)) <==> (no_of_vehicle
                != 0 && no_of_iteration != 0 && !input_ok(
                no_of_customer,
                depo,
                customer_list@,
                distance_matrix@,
            )),
            r is Ok ==> r->Ok_0.wf() && r->Ok_0.no_of_customer == no_of_customer
                && r->Ok_0.no_of_vehicle == no_of_vehicle && r->Ok_0.depo == depo
                && r->Ok_0.customer_list@ == customer_list@ && r->Ok_0.distance_matrix@
                == distance_matrix@ && r->Ok_0.no_of_iteration == no_of_iteration,
    {
        if no_of_vehicle == 0 || no_of_iteration == 0 {
            return Err(RunError::InvalidConfiguration);
        }
        if customer_list.len() != no_of_customer {
            return Err(RunError::InvalidInput);
        }
        let n = distance_matrix.len();
        let mut i: usize = 0;
        while i < n
            invariant
                n == distance_matrix@.len(),
                i <= n,
                no_of_vehicle != 0,
                no_of_iteration != 0,
                customer_list@.len() == no_of_customer,
                forall|j: int| 0 <= j < i ==> (#[trigger] distance_matrix@[j])@.len() == n,
            decreases n - i,
        {
            if distance_matrix[i].len() != n {
                assert(distance_matrix@[i as int]@.len() != n);
                assert(!square(distance_matrix@));
                return Err(RunError::InvalidInput);
            }
            i = i + 1;
        }
        if depo.id >= n {
            return Err(RunError::InvalidInput);
        }
        let mut k: usize = 0;
        while k < customer_list.len()
            invariant
                n == distance_matrix@.len(),
                k <= customer_list@.len(),
                no_of_vehicle != 0,
                no_of_iteration != 0,
                customer_list@.len() == no_of_customer,
                square(distance_matrix@),
                depo.id < n,
                forall|j: int| 0 <= j < k ==> (#[trigger] customer_list@[j]).id < n,
            decreases customer_list.len() - k,
        {
            if customer_list[k].id >= n {
                assert(customer_list@[k as int].id >= n);
                assert(!ids_below(customer_list@, n as nat));
                return Err(RunError::InvalidInput);
            }
            k = k + 1;
        }
        Ok(SimulatedAnnealing { no_of_customer, no_of_vehicle, depo, customer_list, distance_matrix, no_of_iteration })
    }

    /// Builds a fresh starting solution and the search state around it.
    pub fn start(&self, rng: &mut StdRng) -> (r: Annealer)
        requires
            self.wf(),
        ensures
            r.wf(),
            r.depo == self.depo,
            r.no_of_vehicle == self.no_of_vehicle,
            r.distance_matrix@.len() == self.distance_matrix@.len(),
            forall|i: int| 0 <= i < self.distance_matrix@.len() ==>
                (#[trigger] r.distance_matrix@[i])@ == self.distance_matrix@[i]@,
            r.customers@ == self.customer_list@.to_multiset(),
            routes_view(r.best@) == routes_view(r.current@),
            exists|shuffled: Seq<Point>|
                shuffled.to_multiset() == self.customer_list@.to_multiset()
                && #[trigger] split(shuffled, self.no_of_vehicle as nat, self.depo) == routes_view(r.current@),
    {
        let routes = generate_random_route_list(self.no_of_vehicle, self.depo, &self.customer_list, rng);
        let ghost shuffled = choose|shuffled: Seq<Point>|
            shuffled.to_multiset() == self.customer_list@.to_multiset()
            && #[trigger] split(shuffled, self.no_of_vehicle as nat, self.depo) == routes_view(routes@);
        let ghost n = self.distance_matrix@.len();
        proof {
            assert(ids_below(shuffled, n)) by {
                assert forall|i: int| 0 <= i < shuffled.len() implies (#[trigger] shuffled[i]).id < n by {
                    assert(shuffled.to_multiset().count(shuffled[i]) > 0);
                    assert(self.customer_list@.contains(shuffled[i]));
                }
            }
            lemma_partition_covers(shuffled, self.no_of_vehicle as nat, self.depo, n);
        }
        let matrix = copy_matrix(&self.distance_matrix);
        proof {
            assert(square(matrix@));
            assert(routes_view(routes@).len() >= 1);
            assert forall|k: int| 0 <= k < routes_view(routes@).len() implies #[trigger] routes_view(routes@)[k]
                == split(shuffled, self.no_of_vehicle as nat, self.depo)[k] by {}
        }
        Annealer::new(matrix, self.depo, self.no_of_vehicle, routes, Ghost(self.customer_list@.to_multiset()))
    }
}

fn copy_matrix(m: &Vec<Vec<u64>>) -> (r: Vec<Vec<u64>>)
    ensures
        r@.len() == m@.len(),
        forall|i: int| 0 <= i < m@.len() ==> (#[trigger] r@[i])@ == m@[i]@,
{
    let mut r: Vec<Vec<u64>> = Vec::new();
    let mut i: usize = 0;
    while i < m.len()
        invariant
            i <= m@.len(),
            r@.len() == i,
            forall|j: int| 0 <= j < i ==> (#[trigger] r@[j])@ == m@[j]@,
        decreases m.len() - i,
    {
        let row = &m[i];
        let mut c: Vec<u64> = Vec::new();
        let mut j: usize = 0;
        while j < row.len()
            invariant
                j <= row@.len(),
                c@ == row@.subrange(0, j as int),
            decreases row.len() - j,
        {
            c.push(row[j]);
            j = j + 1;
            assert(c@ =~= row@.subrange(0, j as int));
        }
        assert(c@ =~= row@);
        r.push(c);
        i = i + 1;
    }
    r
}

/// The Metropolis rule with the random draw made by the caller: a move that
/// does not make the objective worse is always taken; a worse one is taken
/// exactly when `accept_worse` (the outcome of the draw) says so.
pub fn accepts(candidate_cost: u128, current_cost: u128, accept_worse: bool) -> (r: bool)
    ensures
        r == (candidate_cost <= current_cost || accept_worse),
{
    candidate_cost <= current_cost || accept_worse
}

/// The state of one annealing run: the current solution, the best one seen,
/// and their objectives.
pub struct Annealer {
    pub distance_matrix: Vec<Vec<u64>>,
    pub depo: Point,
    pub no_of_vehicle: usize,
    pub customers: Ghost<Multiset<Point>>,
    pub current: Vec<Vec<Point>>,
    pub current_cost: u128,
    pub best: Vec<Vec<Point>>,
    pub best_cost: u128,
}

/// A solution that the search may hold: depot-bounded routes over known
/// points that visit exactly the run's customers.
pub open spec fn feasible(routes: Seq<Seq<Point>>, depo: Point, m: Seq<Vec<u64>>, customers: Multiset<Point>) -> bool {
    &&& solution_ok(routes, depo, m.len())
    &&& visited(routes) == customers
}

proof fn lemma_feasible_costs_fit(routes: Seq<Seq<Point>>, depo: Point, m: Seq<Vec<u64>>)
    requires
        square(m),
        solution_ok(routes, depo, m.len()),
    ensures
        costs_fit(routes, m),
{
    assert forall|k: int| 0 <= k < routes.len() implies ids_below(#[trigger] routes[k], m.len()) by {
        assert(crate::solution::route_ok(routes[k], depo, m.len()));
    }
}

impl Annealer {
    pub open spec fn wf(&self) -> bool {
        &&& square(self.distance_matrix@)
        &&& self.depo.id < self.distance_matrix@.len()
        &&& self.current@.len() == self.no_of_vehicle
        &&& self.best@.len() == self.no_of_vehicle
        &&& self.best_cost <= self.current_cost
        &&& feasible(routes_view(self.current@), self.depo, self.distance_matrix@, self.customers@)
        &&& feasible(routes_view(self.best@), self.depo, self.distance_matrix@, self.customers@)
        &&& self.current_cost == objective(routes_view(self.current@), self.distance_matrix@)
        &&& self.best_cost == objective(routes_view(self.best@), self.distance_matrix@)
    }

    /// Starts a search at `routes`, which is both current and best.
    pub fn new(
        distance_matrix: Vec<Vec<u64>>,
        depo: Point,
        no_of_vehicle: usize,
        routes: Vec<Vec<Point>>,
        customers: Ghost<Multiset<Point>>,
    ) -> (r: Annealer)
        requires
            routes@.len() == no_of_vehicle,
            square(distance_matrix@),
            depo.id < distance_matrix@.len(),
            feasible(routes_view(routes@), depo, distance_matrix@, customers@),
        ensures
            r.wf(),
            r.distance_matrix == distance_matrix,
            r.depo == depo,
            r.no_of_vehicle == no_of_vehicle,
            r.customers == customers,
            routes_view(r.current@) == routes_view(routes@),
            routes_view(r.best@) == routes_view(routes@),
    {
        proof {
            lemma_feasible_costs_fit(routes_view(routes@), depo, distance_matrix@);
        }
        let cost = calculate_max_distance_of_all_route(&routes, &distance_matrix);
        let best = copy_routes(&routes);
        Annealer { distance_matrix, depo, no_of_vehicle, customers, current: routes, current_cost: cost, best, best_cost: cost }
    }

    /// Draws a candidate next to the current solution.
    pub fn propose(&self, rng: &mut StdRng) -> (r: Vec<Vec<Point>>)
        requires
            self.wf(),
        ensures
            exists|choice: int, a: int, b: int, x: int, y: int|
                neighbour_picks_ok(routes_view(self.current@), choice, a, b, x, y)
                && routes_view(r@) == #[trigger] neighbour_result(routes_view(self.current@), choice, a, b, x, y),
            r@.len() == self.no_of_vehicle,
            feasible(routes_view(r@), self.depo, self.distance_matrix@, self.customers@),
    {
        get_neighbour(&self.current, rng)
    }

    /// Objective of a candidate that the search may hold.
    pub fn cost_of(&self, candidate: &Vec<Vec<Point>>) -> (r: u128)
        requires
            self.wf(),
            feasible(routes_view(candidate@), self.depo, self.distance_matrix@, self.customers@),
        ensures
            r == objective(routes_view(candidate@), self.distance_matrix@),
    {
        proof {
            lemma_feasible_costs_fit(routes_view(candidate@), self.depo, self.distance_matrix@);
        }
        calculate_max_distance_of_all_route(candidate, &self.distance_matrix)
    }

    /// One inner step: takes `candidate` as current when `accepts` says so,
    /// and as best when, taken, it beats the best objective seen. The best
    /// objective never grows.
    pub fn step(&mut self, candidate: Vec<Vec<Point>>, accept_worse: bool) -> (accepted: bool)
        requires
            old(self).wf(),
            candidate@.len() == old(self).no_of_vehicle,
            feasible(routes_view(candidate@), old(self).depo, old(self).distance_matrix@, old(self).customers@),
        ensures
            final(self).wf(),
            final(self).distance_matrix == old(self).distance_matrix,
            final(self).depo == old(self).depo,
            final(self).no_of_vehicle == old(self).no_of_vehicle,
            final(self).customers == old(self).customers,
            accepted == (objective(routes_view(candidate@), old(self).distance_matrix@)
                <= old(self).current_cost || accept_worse),
            accepted ==> routes_view(final(self).current@) == routes_view(candidate@),
            !accepted ==> final(self).current == old(self).current
                && final(self).current_cost == old(self).current_cost,
            if accepted && objective(routes_view(candidate@), old(self).distance_matrix@) < old(self).best_cost {
                routes_view(final(self).best@) == routes_view(candidate@)
            } else {
                final(self).best == old(self).best && final(self).best_cost == old(self).best_cost
            },
            final(self).best_cost <= old(self).best_cost,
    {
        let cost = self.cost_of(&candidate);
        let accepted = accepts(cost, self.current_cost, accept_worse);
        if accepted {
            if cost < self.best_cost {
                self.best = copy_routes(&candidate);
                self.best_cost = cost;
            }
            self.current = candidate;
            self.current_cost = cost;
        }
        accepted
    }

    /// The ids along each route of the best solution seen: every route
    /// starts and ends at the depot, and together they visit every customer
    /// of the run exactly as often as it was given.
    pub fn best_route_ids(&self) -> (r: Vec<Vec<usize>>)
        requires
            self.wf(),
        ensures
            r@.len() == self.best@.len(),
            forall|k: int| 0 <= k < r@.len() ==> (#[trigger] r@[k])@ == self.best@[k]@.map_values(|p: Point| p.id),
            solution_ok(routes_view(self.best@), self.depo, self.distance_matrix@.len()),
            visited(routes_view(self.best@)) == self.customers@,
    {
        list_from_points(&self.best)
    }
}

/// Every state of a run, from `start` through any `step`s, holds one route
/// per vehicle in its best solution, each bounded by the depot, and together
/// they visit each customer of the run exactly as often as it was given.
pub proof fn lemma_run_covers_customers(s: &Annealer)
    requires
        s.wf(),
    ensures
        routes_view(s.best@).len() == s.no_of_vehicle,
        solution_ok(routes_view(s.best@), s.depo, s.distance_matrix@.len()),
        visited(routes_view(s.best@)) == s.customers@,
{
}

/// With one vehicle the best solution of a run is a single route through
/// every customer, and its objective is its total cost.
pub proof fn lemma_one_vehicle_run(s: &Annealer)
    requires
        s.wf(),
        s.no_of_vehicle == 1,
    ensures
        routes_view(s.best@).len() == 1,
        interior(s.best@[0]@).to_multiset() == s.customers@,
        objective(routes_view(s.best@), s.distance_matrix@) == total_cost(routes_view(s.best@), s.distance_matrix@),
{
    let rv = routes_view(s.best@);
    let r = s.best@[0]@;
    assert(rv =~= seq![r]);
    assert(seq![r].drop_last() =~= Seq::<Seq<Point>>::empty());
    assert(seq![r].last() == r);
    assert(visited(seq![r].drop_last()) == Multiset::<Point>::empty());
    assert(visited(seq![r]) =~= interior(r).to_multiset());
    lemma_one_route_objective_is_total(r, s.distance_matrix@);
}

} // verus!
