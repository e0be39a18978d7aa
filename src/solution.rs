use vstd::prelude::*;
use vstd::multiset::Multiset;
use crate::point::Point;

verus! {

broadcast use vstd::multiset::group_multiset_axioms;

/// The mathematical value of a solution: one sequence of points per route.
pub open spec fn routes_view(routes: Seq<Vec<Point>>) -> Seq<Seq<Point>> {
    routes.map_values(|r: Vec<Point>| r@)
}

/// The points strictly between the two depot ends of a route.
pub open spec fn interior(route: Seq<Point>) -> Seq<Point> {
    route.subrange(1, route.len() - 1)
}

/// Every point of the route indexes a matrix of side `n`.
pub open spec fn ids_below(route: Seq<Point>, n: nat) -> bool {
    forall|i: int| 0 <= i < route.len() ==> (#[trigger] route[i]).id < n
}

/// A route starts and ends at the depot and only names known points.
pub open spec fn route_ok(route: Seq<Point>, depot: Point, n: nat) -> bool {
    &&& route.len() >= 2
    &&& route[0] == depot
    &&& route[route.len() - 1] == depot
    &&& ids_below(route, n)
}

/// A solution has at least one route, and every route is well formed.
pub open spec fn solution_ok(routes: Seq<Seq<Point>>, depot: Point, n: nat) -> bool {
    &&& routes.len() >= 1
    &&& forall|k: int| 0 <= k < routes.len() ==> route_ok(#[trigger] routes[k], depot, n)
}

/// The customers that a solution visits, counted with multiplicity.
pub open spec fn visited(routes: Seq<Seq<Point>>) -> Multiset<Point>
    decreases routes.len(),
{
    if routes.len() == 0 {
        Multiset::empty()
    } else {
        visited(routes.drop_last()).add(interior(routes.last()).to_multiset())
    }
}

/// Replacing one route changes the visited customers by exactly the
/// difference between the old route's interior and the new one's.
pub proof fn lemma_visited_update(routes: Seq<Seq<Point>>, k: int, r: Seq<Point>)
    requires
        0 <= k < routes.len(),
    ensures
        visited(routes.update(k, r)).add(interior(routes[k]).to_multiset())
            =~= visited(routes).add(interior(r).to_multiset()),
    decreases routes.len(),
{
    let u = routes.update(k, r);
    let d = routes.drop_last();
    let old_k = interior(routes[k]).to_multiset();
    let new_k = interior(r).to_multiset();
    let last = interior(routes.last()).to_multiset();
    assert(visited(routes) == visited(d).add(last));
    if k == routes.len() - 1 {
        assert(u.drop_last() =~= d);
        assert(visited(u) == visited(d).add(new_k));
    } else {
        assert(u.drop_last() =~= d.update(k, r));
        assert(d[k] == routes[k]);
        lemma_visited_update(d, k, r);
        assert(visited(u) == visited(d.update(k, r)).add(last));
    }
}

/// Every point of a solution, depot ends included, counted with multiplicity.
pub open spec fn all_points(routes: Seq<Seq<Point>>) -> Multiset<Point>
    decreases routes.len(),
{
    if routes.len() == 0 {
        Multiset::empty()
    } else {
        all_points(routes.drop_last()).add(routes.last().to_multiset())
    }
}

/// Replacing one route changes `all_points` by the difference between the
/// old route and the new one.
pub proof fn lemma_all_points_update(routes: Seq<Seq<Point>>, k: int, r: Seq<Point>)
    requires
        0 <= k < routes.len(),
    ensures
        all_points(routes.update(k, r)).add(routes[k].to_multiset())
            =~= all_points(routes).add(r.to_multiset()),
    decreases routes.len(),
{
    let u = routes.update(k, r);
    let d = routes.drop_last();
    let last = routes.last().to_multiset();
    assert(all_points(routes) == all_points(d).add(last));
    if k == routes.len() - 1 {
        assert(u.drop_last() =~= d);
        assert(u.last() == r);
        assert(all_points(u) == all_points(d).add(r.to_multiset()));
    } else {
        assert(u.last() == routes.last());
        assert(u.drop_last() =~= d.update(k, r));
        assert(d[k] == routes[k]);
        lemma_all_points_update(d, k, r);
        assert(all_points(u) == all_points(d.update(k, r)).add(last));
    }
    let lhs = all_points(u).add(routes[k].to_multiset());
    let rhs = all_points(routes).add(r.to_multiset());
    assert forall|p: Point| lhs.count(p) == rhs.count(p) by {}
}

/// `visited` of a concatenation of solutions adds up.
pub proof fn lemma_visited_push(routes: Seq<Seq<Point>>, r: Seq<Point>)
    ensures
        visited(routes.push(r)) =~= visited(routes).add(interior(r).to_multiset()),
{
    assert(routes.push(r).drop_last() =~= routes);
}

/// The interior of a route made of the depot, some points and the depot.
pub proof fn lemma_interior_of_wrapped(depot: Point, s: Seq<Point>)
    ensures
        interior(seq![depot] + s + seq![depot]) =~= s,
{
}

/// Copies a route point by point.
pub fn copy_route(route: &Vec<Point>) -> (r: Vec<Point>)
    ensures
        r@ == route@,
{
    let mut r: Vec<Point> = Vec::new();
    let mut i: usize = 0;
    while i < route.len()
        invariant
            i <= route.len(),
            r@ == route@.subrange(0, i as int),
        decreases route.len() - i,
    {
        r.push(route[i]);
        i = i + 1;
        assert(r@ =~= route@.subrange(0, i as int));
    }
    assert(r@ =~= route@);
    r
}

/// Copies a whole solution.
pub fn copy_routes(routes: &Vec<Vec<Point>>) -> (r: Vec<Vec<Point>>)
    ensures
        r@.len() == routes@.len(),
        routes_view(r@) == routes_view(routes@),
{
    let mut r: Vec<Vec<Point>> = Vec::new();
    let mut i: usize = 0;
    while i < routes.len()
        invariant
            i <= routes.len(),
            r@.len() == i,
            forall|j: int| 0 <= j < i ==> (#[trigger] r@[j])@ == routes@[j]@,
        decreases routes.len() - i,
    {
        let c = copy_route(&routes[i]);
        r.push(c);
        i = i + 1;
    }
    assert(routes_view(r@) =~= routes_view(routes@));
    r
}

/// The ids of the points of each route, in order.
pub fn list_from_points(points: &Vec<Vec<Point>>) -> (r: Vec<Vec<usize>>)
    ensures
        r@.len() == points@.len(),
        forall|k: int| 0 <= k < r@.len() ==> (#[trigger] r@[k])@ == points@[k]@.map_values(|p: Point| p.id),
{
    let mut list: Vec<Vec<usize>> = Vec::new();
    let mut k: usize = 0;
    while k < points.len()
        invariant
            k <= points.len(),
            list@.len() == k,
            forall|j: int| 0 <= j < k ==> (#[trigger] list@[j])@ == points@[j]@.map_values(|p: Point| p.id),
        decreases points.len() - k,
    {
        let route = &points[k];
        let mut ids: Vec<usize> = Vec::new();
        let mut i: usize = 0;
        while i < route.len()
            invariant
                i <= route.len(),
                ids@ == route@.subrange(0, i as int).map_values(|p: Point| p.id),
            decreases route.len() - i,
        {
            ids.push(route[i].id);
            i = i + 1;
            assert(ids@ =~= route@.subrange(0, i as int).map_values(|p: Point| p.id));
        }
        assert(route@.subrange(0, i as int) =~= route@);
        list.push(ids);
        k = k + 1;
    }
    list
}

} // verus!
