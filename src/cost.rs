use vstd::prelude::*;
use crate::point::Point;
use crate::solution::{ids_below, routes_view};

verus! {

/// The matrix has as many entries in each row as it has rows.
pub open spec fn square(m: Seq<Vec<u64>>) -> bool {
    forall|i: int| 0 <= i < m.len() ==> (#[trigger] m[i])@.len() == m.len()
}

/// Distance from `a` to `b`.
pub open spec fn dist(m: Seq<Vec<u64>>, a: Point, b: Point) -> int {
    m[a.id as int]@[b.id as int] as int
}

/// Sum of the distances between consecutive points; a route of at most
/// one point costs nothing.
pub open spec fn route_cost(route: Seq<Point>, m: Seq<Vec<u64>>) -> int
    decreases route.len(),
{
    if route.len() <= 1 {
        0
    } else {
        route_cost(route.drop_last(), m) + dist(m, route[route.len() - 2], route.last())
    }
}

/// Sum of the route costs of a solution.
pub open spec fn total_cost(routes: Seq<Seq<Point>>, m: Seq<Vec<u64>>) -> int
    decreases routes.len(),
{
    if routes.len() == 0 {
        0
    } else {
        total_cost(routes.drop_last(), m) + route_cost(routes.last(), m)
    }
}

/// Cost of the longest route of a solution (0 for no route): the objective.
pub open spec fn objective(routes: Seq<Seq<Point>>, m: Seq<Vec<u64>>) -> int
    decreases routes.len(),
{
    if routes.len() == 0 {
        0
    } else {
        let a = objective(routes.drop_last(), m);
        let b = route_cost(routes.last(), m);
        if b > a { b } else { a }
    }
}

pub open spec fn costs_fit(routes: Seq<Seq<Point>>, m: Seq<Vec<u64>>) -> bool {
    &&& square(m)
    &&& forall|k: int| 0 <= k < routes.len() ==> ids_below(#[trigger] routes[k], m.len())
}

/// A route that visits nobody but its one point costs nothing.
pub proof fn lemma_single_point_route_is_free(p: Point, m: Seq<Vec<u64>>)
    ensures
        route_cost(seq![p], m) == 0,
{
}

pub proof fn lemma_route_cost_nonneg(route: Seq<Point>, m: Seq<Vec<u64>>)
    ensures
        route_cost(route, m) >= 0,
    decreases route.len(),
{
    if route.len() > 1 {
        lemma_route_cost_nonneg(route.drop_last(), m);
    }
}

/// The total of a prefix of the routes never exceeds the total of them all.
pub proof fn lemma_total_prefix(routes: Seq<Seq<Point>>, m: Seq<Vec<u64>>, k: int)
    requires
        0 <= k <= routes.len(),
    ensures
        total_cost(routes.subrange(0, k), m) <= total_cost(routes, m),
    decreases routes.len(),
{
    if k < routes.len() {
        lemma_route_cost_nonneg(routes.last(), m);
        lemma_total_prefix(routes.drop_last(), m, k);
        assert(routes.drop_last().subrange(0, k) =~= routes.subrange(0, k));
    } else {
        assert(routes.subrange(0, k) =~= routes);
    }
}

/// With a single vehicle the objective is the total cost.
pub proof fn lemma_one_route_objective_is_total(route: Seq<Point>, m: Seq<Vec<u64>>)
    ensures
        objective(seq![route], m) == total_cost(seq![route], m),
{
    lemma_route_cost_nonneg(route, m);
    let one = seq![route];
    assert(one.drop_last() =~= Seq::<Seq<Point>>::empty());
    assert(one.last() == route);
    assert(objective(one.drop_last(), m) == 0);
    assert(total_cost(one.drop_last(), m) == 0);
}

/// Cost of one route.
pub fn calculate_total_distance_of_a_route(route: &Vec<Point>, distance_matrix: &Vec<Vec<u64>>) -> (r: u128)
    requires
        square(distance_matrix@),
        ids_below(route@, distance_matrix@.len()),
    ensures
        r == route_cost(route@, distance_matrix@),
{
    if route.len() == 0 {
        return 0;
    }
    let mut total: u128 = 0;
    let mut i: usize = 1;
    while i < route.len()
        invariant
            1 <= i <= route.len(),
            square(distance_matrix@),
            ids_below(route@, distance_matrix@.len()),
            total == route_cost(route@.subrange(0, i as int), distance_matrix@),
            total <= (i - 1) * 0xffff_ffff_ffff_ffffu64,
        decreases route.len() - i,
    {
        let prev = route[i - 1].id;
        let cur = route[i].id;
        let d = distance_matrix[prev][cur];
        assert(route@.subrange(0, i + 1).drop_last() =~= route@.subrange(0, i as int));
        assert(i < 0x1_0000_0000_0000_0000);
        assert(total + d <= i * 0xffff_ffff_ffff_ffffu64) by (nonlinear_arith)
            requires
                total <= (i - 1) * 0xffff_ffff_ffff_ffffu64,
                d <= 0xffff_ffff_ffff_ffffu64,
        ;
        assert(i * 0xffff_ffff_ffff_ffffu64 < 0x1_0000_0000_0000_0000_0000_0000_0000_0000) by (nonlinear_arith)
            requires
                i < 0x1_0000_0000_0000_0000,
        ;
        total = total + d as u128;
        i = i + 1;
    }
    assert(route@.subrange(0, i as int) =~= route@);
    total
}

/// Sum of the costs of all routes.
pub fn calculate_total_distance_of_all_route(
    route_list: &Vec<Vec<Point>>,
    distance_matrix: &Vec<Vec<u64>>,
) -> (r: u128)
    requires
        costs_fit(routes_view(route_list@), distance_matrix@),
        total_cost(routes_view(route_list@), distance_matrix@) <= u128::MAX,
    ensures
        r == total_cost(routes_view(route_list@), distance_matrix@),
{
    let ghost rs = routes_view(route_list@);
    let mut total: u128 = 0;
    let mut k: usize = 0;
    while k < route_list.len()
        invariant
            k <= route_list.len(),
            rs == routes_view(route_list@),
            costs_fit(rs, distance_matrix@),
            total_cost(rs, distance_matrix@) <= u128::MAX,
            total == total_cost(rs.subrange(0, k as int), distance_matrix@),
        decreases route_list.len() - k,
    {
        assert(rs[k as int] == route_list@[k as int]@);
        let c = calculate_total_distance_of_a_route(&route_list[k], distance_matrix);
        assert(rs.subrange(0, k + 1).drop_last() =~= rs.subrange(0, k as int));
        proof {
            lemma_total_prefix(rs, distance_matrix@, k + 1);
        }
        total = total + c;
        k = k + 1;
    }
    assert(rs.subrange(0, k as int) =~= rs);
    total
}

/// Cost of the longest route: the quantity the search minimises.
pub fn calculate_max_distance_of_all_route(
    route_list: &Vec<Vec<Point>>,
    distance_matrix: &Vec<Vec<u64>>,
) -> (r: u128)
    requires
        costs_fit(routes_view(route_list@), distance_matrix@),
    ensures
        r == objective(routes_view(route_list@), distance_matrix@),
{
    let ghost rs = routes_view(route_list@);
    let mut max_distance: u128 = 0;
    let mut k: usize = 0;
    while k < route_list.len()
        invariant
            k <= route_list.len(),
            rs == routes_view(route_list@),
            costs_fit(rs, distance_matrix@),
            max_distance == objective(rs.subrange(0, k as int), distance_matrix@),
        decreases route_list.len() - k,
    {
        assert(rs[k as int] == route_list@[k as int]@);
        let distance = calculate_total_distance_of_a_route(&route_list[k], distance_matrix);
        assert(rs.subrange(0, k + 1).drop_last() =~= rs.subrange(0, k as int));
        if distance > max_distance {
            max_distance = distance;
        }
        k = k + 1;
    }
    assert(rs.subrange(0, k as int) =~= rs);
    max_distance
}

} // verus!
